//! Absolute paths of items.
use vstd::prelude::*;

use crate::util::{
    first_index, lemma_first_index, lemma_first_index_unique, split_all, split_str_all,
};
use crate::Error;

verus! {

/// Absolute path of an item.
///
/// Either a slice of path components or a string with `/`-separated components.
/// A leading slash is required for a string path, other than that the path can
/// be empty: `/` is a path without components, the empty string is no path.
pub trait Path {
    /// The components of the path, or why it is not a path.
    spec fn components(&self) -> Result<Seq<Seq<char>>, Error>;

    /// This path's components.
    fn as_components(&self) -> (r: Result<Vec<&str>, Error>)
        ensures
            match self.components() {
                Ok(components) => r matches Ok(v) && v@.map_values(|s: &str| s@) == components,
                Err(err) => r == Err::<Vec<&str>, Error>(err),
            },
    ;
}

impl<'b> Path for [&'b str] {
    open spec fn components(&self) -> Result<Seq<Seq<char>>, Error> {
        Ok(self@.map_values(|s: &str| s@))
    }

    fn as_components(&self) -> (r: Result<Vec<&str>, Error>) {
        let mut components: Vec<&str> = Vec::new();
        for i in 0..self.len()
            invariant
                components@.len() == i,
                forall|j: int| 0 <= j < i ==> components@[j]@ == self@[j]@,
        {
            components.push(self[i]);
        }
        assert(components@.map_values(|s: &str| s@) == self@.map_values(|s: &str| s@));
        Ok(components)
    }
}

impl<'b, const N: usize> Path for [&'b str; N] {
    open spec fn components(&self) -> Result<Seq<Seq<char>>, Error> {
        Ok(self@.map_values(|s: &str| s@))
    }

    fn as_components(&self) -> (r: Result<Vec<&str>, Error>) {
        self.as_slice().as_components()
    }
}

impl Path for [String] {
    open spec fn components(&self) -> Result<Seq<Seq<char>>, Error> {
        Ok(self@.map_values(|s: String| s@))
    }

    fn as_components(&self) -> (r: Result<Vec<&str>, Error>) {
        let mut components: Vec<&str> = Vec::new();
        for i in 0..self.len()
            invariant
                components@.len() == i,
                forall|j: int| 0 <= j < i ==> components@[j]@ == self@[j]@,
        {
            components.push(self[i].as_str());
        }
        assert(components@.map_values(|s: &str| s@) == self@.map_values(|s: String| s@));
        Ok(components)
    }
}

impl<const N: usize> Path for [String; N] {
    open spec fn components(&self) -> Result<Seq<Seq<char>>, Error> {
        Ok(self@.map_values(|s: String| s@))
    }

    fn as_components(&self) -> (r: Result<Vec<&str>, Error>) {
        self.as_slice().as_components()
    }
}

/// The components of a string path, which has to start with a slash. The path
/// `/` has none: it stands for the root node.
pub open spec fn path_components(path: Seq<char>) -> Result<Seq<Seq<char>>, Error> {
    if path.len() == 0 || path[0] != '/' {
        Err(Error::InvalidPath)
    } else if path.len() == 1 {
        Ok(Seq::empty())
    } else {
        Ok(split_all(path.skip(1), '/'))
    }
}

impl Path for str {
    open spec fn components(&self) -> Result<Seq<Seq<char>>, Error> {
        path_components(self@)
    }

    fn as_components(&self) -> (r: Result<Vec<&str>, Error>) {
        let len = self.unicode_len();
        if len == 0 || self.get_char(0) != '/' {
            return Err(Error::InvalidPath);
        }
        if len == 1 {
            // for the root node, there should be no components
            return Ok(Vec::new());
        }
        let rest = self.substring_char(1, len);
        assert(rest@ == self@.skip(1));
        Ok(split_str_all(rest, '/'))
    }
}

/// The string path with the given components.
pub open spec fn joined(components: Seq<Seq<char>>) -> Seq<char>
    decreases components.len(),
{
    if components.len() == 0 {
        Seq::empty()
    } else {
        seq!['/'] + components[0] + joined(components.skip(1))
    }
}

/// Splitting what was joined gives the components back.
proof fn lemma_split_joined(components: Seq<Seq<char>>)
    requires
        components.len() > 0,
        forall|i: int| 0 <= i < components.len() ==> !(#[trigger] components[i]).contains('/'),
    ensures
        split_all(joined(components).skip(1), '/') == components,
    decreases components.len(),
{
    let first = components[0];
    let rest = components.skip(1);
    let s = joined(components).skip(1);
    assert(s == first + joined(rest));
    let i = first.len() as int;
    assert forall|j: int| 0 <= j < i implies s[j] != '/' by {
        assert(s[j] == first[j]);
    }
    lemma_first_index_unique(s, '/', i);
    if rest.len() == 0 {
        assert(s == first);
        assert(components == seq![first]);
    } else {
        assert forall|j: int| 0 <= j < rest.len() implies !(#[trigger] rest[j]).contains('/') by {
            assert(rest[j] == components[j + 1]);
        }
        lemma_split_joined(rest);
        assert(s.take(i) == first);
        assert(s.skip(i + 1) == joined(rest).skip(1));
        assert(components == seq![first] + rest);
    }
}

/// A string path has the components that it was joined from, provided that
/// there are any and that these hold no slash. A single empty component is the
/// exception: it gives `/`, which stands for the root node.
pub proof fn law_path_of_components(components: Seq<Seq<char>>)
    requires
        components.len() > 0,
        forall|i: int| 0 <= i < components.len() ==> !(#[trigger] components[i]).contains('/'),
        components != seq![Seq::<char>::empty()],
    ensures
        path_components(joined(components)) == Ok::<Seq<Seq<char>>, Error>(components),
{
    lemma_split_joined(components);
    if joined(components).len() == 1 {
        assert(components[0] == Seq::<char>::empty());
        assert(components == seq![components[0]]);
    }
}

/// Joining what was split gives the string back.
proof fn lemma_joined_split(s: Seq<char>)
    ensures
        joined(split_all(s, '/')) == seq!['/'] + s,
        split_all(s, '/').len() > 0,
        forall|i: int|
            0 <= i < split_all(s, '/').len() ==> !(#[trigger] split_all(s, '/')[i]).contains('/'),
    decreases s.len(),
{
    lemma_first_index(s, '/');
    let i = first_index(s, '/');
    let parts = split_all(s, '/');
    if i < s.len() {
        let tail = s.skip(i + 1);
        lemma_joined_split(tail);
        assert(parts.skip(1) == split_all(tail, '/'));
        assert(s == s.take(i) + seq!['/'] + tail);
        assert(joined(parts) == seq!['/'] + s.take(i) + (seq!['/'] + tail));
        assert forall|j: int| 0 <= j < parts.len() implies !(#[trigger] parts[j]).contains('/') by {
            if j > 0 {
                assert(parts[j] == split_all(tail, '/')[j - 1]);
            }
        }
    } else {
        assert(parts.skip(1) == Seq::<Seq<char>>::empty());
        assert(joined(parts.skip(1)) == Seq::<char>::empty());
        assert(parts[0] == s);
        assert(joined(parts) == seq!['/'] + s);
    }
}

/// The components of a string path hold no slash, and joining them gives the
/// path back. The path `/` is the exception: it has no components.
pub proof fn law_components_of_path(path: Seq<char>)
    requires
        path_components(path) is Ok,
        path.len() != 1,
    ensures
        path_components(path) matches Ok(components) && {
            &&& joined(components) == path
            &&& forall|i: int|
                0 <= i < components.len() ==> !(#[trigger] components[i]).contains('/')
        },
{
    lemma_joined_split(path.skip(1));
    assert(path == seq!['/'] + path.skip(1));
}

} // verus!
