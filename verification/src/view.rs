//! View projection: avatar URL derivation and message row classification.

use vstd::prelude::*;
use vstd::string::StrSliceExecFns;
use vstd::string::StringExecFns;

use crate::codec::str_eq;
use crate::codec::ChatMessage;
use crate::codec::ChatView;
use crate::session::ProfileView;
use crate::session::UserProfile;

verus! {

broadcast use vstd::string::group_string_axioms;

/// The avatar URL derived from a participant name: a fixed template around
/// the name, so the same name always yields the same URL.
pub open spec fn spec_avatar_url(name: Seq<char>) -> Seq<char> {
    "https://avatars.dicebear.com/api/adventurer-neutral/"@ + name + ".svg"@
}

/// Derives the avatar URL for a name.  Deterministic by contract: the result
/// is a function of the name alone.
pub fn avatar_url(name: &str) -> (r: String)
    ensures
        r@ == spec_avatar_url(name@),
{
    let mut out = String::from_str("https://avatars.dicebear.com/api/adventurer-neutral/");
    out.append(name);
    out.append(".svg");
    assert(out@ =~= spec_avatar_url(name@));
    out
}

/// How a message renders: as plain text or as an embedded media reference.
#[derive(Clone, Copy, PartialEq, Eq, Structural, Debug)]
pub enum RowKind {
    Text,
    Media,
}

/// A message is media exactly when its text ends with the media suffix.
pub open spec fn spec_is_media(t: Seq<char>) -> bool {
    t.len() >= 4 && t.skip(t.len() - 4) == ".gif"@
}

/// Classifies a message text as a media row or a text row.
pub fn classify(text: &str) -> (r: RowKind)
    ensures
        r == (if spec_is_media(text@) {
            RowKind::Media
        } else {
            RowKind::Text
        }),
{
    proof {
        reveal_strlit(".gif");
        assert(".gif"@.len() == 4);
    }
    let n = text.unicode_len();
    if n < 4 {
        return RowKind::Text;
    }
    let is_suffix = text.get_char(n - 4) == '.' && text.get_char(n - 3) == 'g' && text.get_char(
        n - 2,
    ) == 'i' && text.get_char(n - 1) == 'f';
    proof {
        let t = text@.skip(n as int - 4);
        assert(t[0] == text@[n as int - 4]);
        assert(t[1] == text@[n as int - 3]);
        assert(t[2] == text@[n as int - 2]);
        assert(t[3] == text@[n as int - 1]);
        if is_suffix {
            assert(t =~= ".gif"@);
        } else {
            assert(t != ".gif"@);
        }
    }
    if is_suffix {
        RowKind::Media
    } else {
        RowKind::Text
    }
}

/// A renderable message row.
#[derive(Debug)]
pub struct MessageRow {
    pub sender: String,
    pub avatar_url: String,
    pub body: String,
    pub kind: RowKind,
}

/// Mathematical model of a [`MessageRow`].
pub struct RowView {
    pub sender: Seq<char>,
    pub avatar_url: Seq<char>,
    pub body: Seq<char>,
    pub kind: RowKind,
}

impl View for MessageRow {
    type V = RowView;

    open spec fn view(&self) -> RowView {
        RowView {
            sender: self.sender@,
            avatar_url: self.avatar_url@,
            body: self.body@,
            kind: self.kind,
        }
    }
}

/// The first roster entry with the given name, in roster order.
pub open spec fn first_profile(roster: Seq<ProfileView>, name: Seq<char>) -> Option<ProfileView>
    decreases roster.len(),
{
    if roster.len() == 0 {
        None
    } else if roster[0].name == name {
        Some(roster[0])
    } else {
        first_profile(roster.skip(1), name)
    }
}

/// The row projected from one message: the roster entry's avatar when the
/// sender is present (first match), else the avatar derived from the
/// sender's name, so a message never fails to render for want of a roster
/// entry.
pub open spec fn spec_project(roster: Seq<ProfileView>, m: ChatView) -> RowView {
    RowView {
        sender: m.sender,
        avatar_url: match first_profile(roster, m.sender) {
            Some(p) => p.avatar_url,
            None => spec_avatar_url(m.sender),
        },
        body: m.text,
        kind: if spec_is_media(m.text) {
            RowKind::Media
        } else {
            RowKind::Text
        },
    }
}

/// The avatar URL of the first roster entry with the given name, if any.
fn find_avatar(roster: &Vec<UserProfile>, name: &str) -> (r: Option<String>)
    ensures
        match r {
            Some(a) => match first_profile(roster@.map_values(|u: UserProfile| u@), name@) {
                Some(p) => a@ == p.avatar_url,
                None => false,
            },
            None => first_profile(roster@.map_values(|u: UserProfile| u@), name@) is None,
        },
{
    let ghost vr = roster@.map_values(|u: UserProfile| u@);
    proof {
        assert(vr.skip(0) =~= vr);
    }
    let mut i: usize = 0;
    while i < roster.len()
        invariant
            vr == roster@.map_values(|u: UserProfile| u@),
            i <= roster.len(),
            first_profile(vr, name@) == first_profile(vr.skip(i as int), name@),
        decreases roster.len() - i,
    {
        proof {
            assert(vr[i as int] == roster@[i as int]@);
            assert(vr.skip(i as int)[0] == vr[i as int]);
            assert(vr.skip(i as int).skip(1) =~= vr.skip(i as int + 1));
        }
        if str_eq(roster[i].name.as_str(), name) {
            return Some(roster[i].avatar_url.clone());
        }
        i = i + 1;
    }
    proof {
        assert(vr.skip(i as int).len() == 0);
    }
    None
}

/// Projects one message to its renderable row against the given roster.
pub fn project_message(roster: &Vec<UserProfile>, m: &ChatMessage) -> (r: MessageRow)
    ensures
        r@ == spec_project(roster@.map_values(|u: UserProfile| u@), m@),
{
    let avatar = match find_avatar(roster, m.sender.as_str()) {
        Some(a) => a,
        None => avatar_url(m.sender.as_str()),
    };
    let kind = classify(m.text.as_str());
    MessageRow { sender: m.sender.clone(), avatar_url: avatar, body: m.text.clone(), kind }
}

/// Projects a whole message log to rows, in log order.
pub fn project_log(roster: &Vec<UserProfile>, log: &Vec<ChatMessage>) -> (r: Vec<MessageRow>)
    ensures
        r@.map_values(|row: MessageRow| row@) == log@.map_values(
            |m: ChatMessage| spec_project(roster@.map_values(|u: UserProfile| u@), m@),
        ),
{
    let ghost vr = roster@.map_values(|u: UserProfile| u@);
    let mut rows: Vec<MessageRow> = Vec::new();
    let mut i: usize = 0;
    while i < log.len()
        invariant
            vr == roster@.map_values(|u: UserProfile| u@),
            i <= log.len(),
            rows@.len() == i,
            forall|k: int|
                0 <= k < i ==> (#[trigger] rows@[k])@ == spec_project(vr, log@[k]@),
        decreases log.len() - i,
    {
        let row = project_message(roster, &log[i]);
        rows.push(row);
        i = i + 1;
    }
    proof {
        assert(rows@.map_values(|row: MessageRow| row@) =~= log@.map_values(
            |m: ChatMessage| spec_project(vr, m@),
        ));
    }
    rows
}

} // verus!
