//! The tag lists and title lists that the index keeps as JSON text, and the
//! count of tag lists that could not be read.

use crate::text;
use vstd::prelude::*;

verus! {

/// The error of `serde_json`, carried through as it is.
#[verifier::external_type_specification]
#[verifier::external_body]
pub struct ExJsonError(serde_json::Error);

/// The list of strings that a JSON text stands for, as `serde_json::from_str`
/// reads it into a `Vec<String>`: `None` where it refuses the text.
pub uninterp spec fn json_strings(s: Seq<char>) -> Option<Seq<Seq<char>>>;

/// The list of strings and nulls that a JSON text stands for, as
/// `serde_json::from_str` reads it into a `Vec<Option<String>>`: `None` where
/// it refuses the text.
pub uninterp spec fn json_optional_strings(s: Seq<char>) -> Option<Seq<Option<Seq<char>>>>;

/// The JSON text that `serde_json::to_string` writes for a list of strings.
pub uninterp spec fn json_text(v: Seq<Seq<char>>) -> Seq<char>;

/// `serde_json::from_str` into a `Vec<String>`. What it reads, and whether it
/// reads anything, depends on the text alone.
#[verifier::external_body]
fn read_strings(s: &str) -> (r: Result<Vec<String>, serde_json::Error>)
    ensures
        match r {
            Ok(v) => json_strings(s@) == Some(text::texts(v@)),
            Err(_) => json_strings(s@) is None,
        },
{
    serde_json::from_str::<Vec<String>>(s)
}

/// The characters of every optional string of a sequence.
pub open spec fn option_texts(v: Seq<Option<String>>) -> Seq<Option<Seq<char>>> {
    Seq::new(v.len(), |i: int| text::option_text(v[i]))
}

/// `serde_json::from_str` into a `Vec<Option<String>>`. What it reads, and
/// whether it reads anything, depends on the text alone.
#[verifier::external_body]
fn read_optional_strings(s: &str) -> (r: Result<Vec<Option<String>>, serde_json::Error>)
    ensures
        match r {
            Ok(v) => json_optional_strings(s@) == Some(option_texts(v@)),
            Err(_) => json_optional_strings(s@) is None,
        },
{
    serde_json::from_str::<Vec<Option<String>>>(s)
}

/// `serde_json::to_string` of a list of strings. Writing fails only for a value
/// that refuses to be written or a map whose keys are no strings, so a list of
/// strings is always written. The text depends on the strings alone, is not
/// empty since a list is written in brackets, and reads back as the strings.
#[verifier::external_body]
fn write_strings(v: &Vec<String>) -> (r: Result<String, serde_json::Error>)
    ensures
        r is Ok,
        r->Ok_0@ == json_text(text::texts(v@)),
        r->Ok_0@.len() > 0,
        json_strings(r->Ok_0@) == Some(text::texts(v@)),
{
    serde_json::to_string(v)
}

/// The JSON text under which a document's tags are stored. Reading it gives
/// the tags back.
pub fn encode_tags(tags: &Vec<String>) -> (r: String)
    ensures
        r@ == json_text(text::texts(tags@)),
        stored_tags(Some(r)) == text::texts(tags@),
        !malformed_tags(Some(r)),
{
    match write_strings(tags) {
        Ok(s) => s,
        Err(_) => String::new(),
    }
}

/// The tags that a stored text stands for. A missing, empty or malformed text
/// stands for none.
pub open spec fn stored_tags(json: Option<String>) -> Seq<Seq<char>> {
    match json {
        Some(s) => if s@.len() == 0 {
            Seq::empty()
        } else {
            match json_strings(s@) {
                Some(v) => v,
                None => Seq::empty(),
            }
        },
        None => Seq::empty(),
    }
}

/// Whether a stored text is there but cannot be read.
pub open spec fn malformed_tags(json: Option<String>) -> bool {
    json matches Some(s) && s@.len() > 0 && json_strings(s@) is None
}

/// What reading a tag list has come to: the list, or a text that is not one.
pub fn tags_or_failure(read: Result<Vec<String>, serde_json::Error>) -> (r: (Vec<String>, bool))
    ensures
        match read {
            Ok(v) => r.0 == v && !r.1,
            Err(_) => r.0@.len() == 0 && r.1,
        },
{
    match read {
        Ok(v) => (v, false),
        Err(_) => (Vec::new(), true),
    }
}

/// The count of failures with those of earlier sessions, as far as the counter goes.
pub open spec fn total_of(delta: u64, persisted: Option<u64>) -> int {
    let sum = delta + (match persisted {
        Some(n) => n as int,
        None => 0,
    });
    if sum > u64::MAX {
        u64::MAX as int
    } else {
        sum
    }
}

/// What is added to the stored count for so many failures.
pub open spec fn delta_to_store(delta: u64) -> Option<i64> {
    if delta == 0 {
        None
    } else if delta > i64::MAX {
        Some(i64::MAX)
    } else {
        Some(delta as i64)
    }
}

/// How many stored tag lists could not be read since the index was opened.
#[derive(Debug, Clone, Copy, PartialEq, Eq, Structural)]
pub struct TagFailures {
    pub delta: u64,
}

/// One more, starting over at zero where the counter is full.
pub open spec fn counted_up(n: u64) -> u64 {
    if n == u64::MAX {
        0
    } else {
        (n + 1) as u64
    }
}

impl TagFailures {
    /// A count of nothing.
    pub fn new() -> (r: Self)
        ensures
            r.delta == 0,
    {
        TagFailures { delta: 0 }
    }

    /// The tags that a stored text stands for; a text that cannot be read is
    /// counted and stands for none.
    pub fn parse_tags_json_recording(&mut self, json: Option<String>) -> (r: Vec<String>)
        ensures
            text::texts(r@) == stored_tags(json),
            final(self).delta == (if malformed_tags(json) {
                counted_up(old(self).delta)
            } else {
                old(self).delta
            }),
    {
        match json {
            Some(s) => {
                if s.as_str().is_empty() {
                    let none: Vec<String> = Vec::new();
                    assert(text::texts(none@) == Seq::<Seq<char>>::empty());
                    return none;
                }
                let (tags, failed) = tags_or_failure(read_strings(s.as_str()));
                if failed {
                    self.delta = self.delta.wrapping_add(1);
                    assert(text::texts(tags@) == Seq::<Seq<char>>::empty());
                }
                tags
            },
            None => {
                let none: Vec<String> = Vec::new();
                assert(text::texts(none@) == Seq::<Seq<char>>::empty());
                none
            },
        }
    }

    /// The count to show: what earlier sessions have stored, and what this one
    /// has added.
    pub fn total(&self, persisted: Option<u64>) -> (r: u64)
        ensures
            r == total_of(self.delta, persisted),
            ({
                let sum = self.delta + (match persisted {
                    Some(n) => n as int,
                    None => 0,
                });
                r == if sum > u64::MAX {
                    u64::MAX as int
                } else {
                    sum
                }
            }),
    {
        match persisted {
            Some(n) => n.saturating_add(self.delta),
            None => self.delta,
        }
    }

    /// What to add to the stored count at the end of a session: `None` where
    /// nothing was counted. The stored count is a signed number.
    pub fn to_store(&self) -> (r: Option<i64>)
        ensures
            r == delta_to_store(self.delta),
            r == (if self.delta == 0 {
                None::<i64>
            } else if self.delta > i64::MAX {
                Some(i64::MAX)
            } else {
                Some(self.delta as i64)
            }),
    {
        if self.delta == 0 {
            None
        } else if self.delta > i64::MAX as u64 {
            Some(i64::MAX)
        } else {
            Some(self.delta as i64)
        }
    }
}

/// The count of unreadable tag lists that the index has stored: `None` where
/// the entry is missing or no number.
pub fn stored_failure_count(raw: Option<&str>) -> (r: Option<u64>)
    ensures
        match raw {
            Some(s) => match (r, text::unsigned_value(s@, u64::MAX as nat)) {
                (Some(n), Some(v)) => n == v,
                (None, None) => true,
                _ => false,
            },
            None => r is None,
        },
{
    match raw {
        Some(s) => text::parse_unsigned(s, u64::MAX),
        None => None,
    }
}

/// The strings of a list that are there.
pub open spec fn present(v: Seq<Option<Seq<char>>>) -> Seq<Seq<char>>
    decreases v.len(),
{
    if v.len() == 0 {
        Seq::empty()
    } else {
        match v.last() {
            Some(s) => present(v.drop_last()).push(s),
            None => present(v.drop_last()),
        }
    }
}

/// The strings of a list that are there, in order.
pub fn flatten(v: &Vec<Option<String>>) -> (r: Vec<String>)
    ensures
        text::texts(r@) == present(option_texts(v@)),
{
    let ghost all = option_texts(v@);
    let mut out: Vec<String> = Vec::new();
    let mut i: usize = 0;
    proof {
        assert(text::texts(out@) == Seq::<Seq<char>>::empty());
    }
    while i < v.len()
        invariant
            all == option_texts(v@),
            i <= v@.len(),
            text::texts(out@) == present(all.take(i as int)),
        decreases v@.len() - i,
    {
        let ghost before = text::texts(out@);
        proof {
            assert(all.take(i + 1).drop_last() == all.take(i as int));
            assert(all.take(i + 1).last() == text::option_text(v@[i as int]));
        }
        match &v[i] {
            Some(s) => {
                out.push(s.clone());
                proof {
                    assert(text::texts(out@) == before.push(s@));
                }
            },
            None => {},
        }
        i += 1;
    }
    proof {
        assert(all.take(v@.len() as int) == all);
    }
    out
}

/// The titles that a JSON text groups. Documents without a title are left out,
/// and a text that is missing or cannot be read holds none.
pub open spec fn titles_in(json: Option<Seq<char>>) -> Seq<Seq<char>> {
    match json {
        Some(s) => match json_optional_strings(s) {
            Some(v) => present(v),
            None => Seq::empty(),
        },
        None => Seq::empty(),
    }
}

/// The titles of a topic, out of the JSON text that groups them. Documents
/// without a title are left out, and a text that cannot be read gives none.
pub fn titles_of(json: Option<&str>) -> (r: Vec<String>)
    ensures
        text::texts(r@) == titles_in(match json {
            Some(s) => Some(s@),
            None => None,
        }),
{
    let none: Vec<String> = Vec::new();
    assert(text::texts(none@) == Seq::<Seq<char>>::empty());
    match json {
        Some(s) => match read_optional_strings(s) {
            Ok(v) => flatten(&v),
            Err(_) => none,
        },
        None => none,
    }
}

} // verus!
