//! Paths by their components.

use crate::text;
use crate::text::{same_text, to_text};
use vstd::prelude::*;

verus! {

/// A path: the root that makes it absolute, if any, and the names below it. A
/// name that stands for the current directory is left out; one that stands for
/// the parent is a name like any other.
#[derive(Debug, Clone)]
pub struct PathName {
    pub root: Option<String>,
    pub parts: Vec<String>,
}

/// A path as characters.
#[verifier::ext_equal]
pub struct PathText {
    pub root: Option<Seq<char>>,
    pub parts: Seq<Seq<char>>,
}

impl View for PathName {
    type V = PathText;

    open spec fn view(&self) -> PathText {
        PathText { root: text::option_text(self.root), parts: text::texts(self.parts@) }
    }
}

impl PathText {
    pub open spec fn is_absolute(self) -> bool {
        self.root is Some
    }

    /// The path with one more name.
    pub open spec fn below(self, name: Seq<char>) -> PathText {
        PathText { root: self.root, parts: self.parts.push(name) }
    }

    /// `other` as seen from here: itself where it is absolute.
    pub open spec fn joined(self, other: PathText) -> PathText {
        if other.is_absolute() {
            other
        } else {
            PathText { root: self.root, parts: self.parts + other.parts }
        }
    }

    /// The path without its last name; none where there is no name.
    pub open spec fn parent(self) -> Option<PathText> {
        if self.parts.len() == 0 {
            None
        } else {
            Some(PathText { root: self.root, parts: self.parts.drop_last() })
        }
    }

    /// Whether the path is `base` or lies below it.
    pub open spec fn within(self, base: PathText) -> bool {
        self.root == base.root && base.parts.is_prefix_of(self.parts)
    }
}

/// An optional path as characters.
pub open spec fn option_path(o: Option<PathName>) -> Option<PathText> {
    match o {
        Some(p) => Some(p@),
        None => None,
    }
}

/// An optional reference to a path as characters.
pub open spec fn path_ref(o: Option<&PathName>) -> Option<PathText> {
    match o {
        Some(p) => Some(p@),
        None => None,
    }
}

/// The paths of a list as characters.
pub open spec fn path_texts(v: Seq<PathName>) -> Seq<PathText> {
    Seq::new(v.len(), |i: int| v[i]@)
}

impl PathName {
    pub fn is_absolute(&self) -> (r: bool)
        ensures
            r == self@.is_absolute(),
    {
        self.root.is_some()
    }

    /// The same path again.
    pub fn copy(&self) -> (r: PathName)
        ensures
            r@ == self@,
    {
        PathName { root: text::copy_option(&self.root), parts: text::copy_texts(&self.parts) }
    }

    /// The path with one more name.
    pub fn below(&self, name: &str) -> (r: PathName)
        ensures
            r@ == self@.below(name@),
    {
        let mut parts = text::copy_texts(&self.parts);
        parts.push(to_text(name));
        let r = PathName { root: text::copy_option(&self.root), parts };
        assert(r@.parts =~= self@.parts.push(name@));
        r
    }

    /// `other` as seen from here.
    pub fn join(&self, other: &PathName) -> (r: PathName)
        ensures
            r@ == self@.joined(other@),
    {
        if other.is_absolute() {
            return other.copy();
        }
        let mut parts = text::copy_texts(&self.parts);
        let mut more = text::copy_texts(&other.parts);
        parts.append(&mut more);
        let r = PathName { root: text::copy_option(&self.root), parts };
        assert(r@.parts =~= self@.parts + other@.parts);
        r
    }

    /// The path without its last name.
    pub fn parent(&self) -> (r: Option<PathName>)
        ensures
            option_path(r) == self@.parent(),
    {
        if self.parts.len() == 0 {
            return None;
        }
        let mut parts = text::copy_texts(&self.parts);
        parts.truncate(self.parts.len() - 1);
        let r = PathName { root: text::copy_option(&self.root), parts };
        assert(r@.parts =~= self@.parts.drop_last());
        Some(r)
    }

    fn same_root(&self, other: &PathName) -> (r: bool)
        ensures
            r == (self@.root == other@.root),
    {
        match (&self.root, &other.root) {
            (Some(a), Some(b)) => same_text(a.as_str(), b.as_str()),
            (None, None) => true,
            _ => false,
        }
    }

    /// Whether the path is `base` or lies below it.
    pub fn starts_with(&self, base: &PathName) -> (r: bool)
        ensures
            r == self@.within(base@),
    {
        if !self.same_root(base) || base.parts.len() > self.parts.len() {
            return false;
        }
        let mut i: usize = 0;
        while i < base.parts.len()
            invariant
                i <= base.parts@.len() <= self.parts@.len(),
                forall|k: int| 0 <= k < i ==> base@.parts[k] == self@.parts[k],
            decreases base.parts@.len() - i,
        {
            if !same_text(base.parts[i].as_str(), self.parts[i].as_str()) {
                assert(base@.parts[i as int] != self@.parts[i as int]);
                assert(self@.parts.subrange(0, base@.parts.len() as int)[i as int]
                    == self@.parts[i as int]);
                return false;
            }
            i += 1;
        }
        assert(base@.parts =~= self@.parts.subrange(0, base@.parts.len() as int));
        true
    }

    /// Whether two paths are the same.
    pub fn same(&self, other: &PathName) -> (r: bool)
        ensures
            r == (self@ == other@),
    {
        let r = self.parts.len() == other.parts.len() && self.starts_with(other);
        proof {
            if r {
                assert(self@.parts.subrange(0, other@.parts.len() as int) =~= self@.parts);
                assert(self@ =~= other@);
            } else if self@ == other@ {
                assert(self@.parts.subrange(0, other@.parts.len() as int) =~= other@.parts);
            }
        }
        r
    }

    /// Whether the path is one of a list.
    pub fn is_among(&self, list: &Vec<PathName>) -> (r: bool)
        ensures
            r == path_texts(list@).contains(self@),
    {
        let mut i: usize = 0;
        while i < list.len()
            invariant
                i <= list@.len(),
                forall|k: int| 0 <= k < i ==> path_texts(list@)[k] != self@,
            decreases list@.len() - i,
        {
            if list[i].same(self) {
                assert(path_texts(list@)[i as int] == self@);
                return true;
            }
            i += 1;
        }
        false
    }
}

/// `path` as seen from `base`: itself where it is absolute.
pub fn resolve_relative(base: &PathName, path: PathName) -> (r: PathName)
    ensures
        r@ == base@.joined(path@),
        path@.is_absolute() ==> r == path,
{
    if path.is_absolute() {
        path
    } else {
        base.join(&path)
    }
}

/// A path lies within itself, and whatever lies within it lies within what it
/// lies within.
pub proof fn within_is_an_order(a: PathText, b: PathText, c: PathText)
    ensures
        a.within(a),
        a.within(b) && b.within(c) ==> a.within(c),
        a.within(b) && b.within(a) ==> a == b,
{
    assert(a.parts.subrange(0, a.parts.len() as int) =~= a.parts);
    if a.within(b) && b.within(c) {
        assert(a.parts.subrange(0, c.parts.len() as int) =~= b.parts.subrange(
            0,
            c.parts.len() as int,
        )) by {
            assert(a.parts.subrange(0, b.parts.len() as int) == b.parts);
            assert forall|i: int| 0 <= i < c.parts.len() implies #[trigger] a.parts[i]
                == b.parts[i] by {
                assert(a.parts.subrange(0, b.parts.len() as int)[i] == a.parts[i]);
            }
        }
    }
    if a.within(b) && b.within(a) {
        assert(a.parts.subrange(0, b.parts.len() as int) =~= a.parts);
        assert(a =~= b);
    }
}

} // verus!
