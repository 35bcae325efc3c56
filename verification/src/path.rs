//! Paths as they are compared: by their components, whatever the separators between them.

use crate::root::{lemma_stem, stem};
use crate::text::same_text;
use vstd::prelude::*;
use vstd::string::StrSliceExecFns;

verus! {

/// A component of a path.
#[derive(Debug, Clone, PartialEq, Eq, PartialOrd, Ord, Hash)]
pub enum Component {
    /// The root directory.
    Root,
    /// The current directory, at the front of a relative path.
    Current,
    /// The directory above.
    Parent,
    /// A file or a directory with this name.
    Name(String),
}

/// What a [`Component`] is.
pub enum ComponentView {
    Root,
    Current,
    Parent,
    Name(Seq<char>),
}

impl View for Component {
    type V = ComponentView;

    open spec fn view(&self) -> ComponentView {
        match self {
            Component::Root => ComponentView::Root,
            Component::Current => ComponentView::Current,
            Component::Parent => ComponentView::Parent,
            Component::Name(t) => ComponentView::Name(t@),
        }
    }
}

/// What each component of a list is.
pub open spec fn component_views(list: Seq<Component>) -> Seq<ComponentView> {
    Seq::new(list.len(), |i: int| list[i]@)
}

/// What stands between two separators: nothing and `.` name no component.
pub open spec fn named(word: Seq<char>) -> Seq<ComponentView> {
    if word.len() == 0 || word == "."@ {
        Seq::empty()
    } else if word == ".."@ {
        seq![ComponentView::Parent]
    } else {
        seq![ComponentView::Name(word)]
    }
}

/// The components that stand between the separators of a path.
pub open spec fn words(path: Seq<char>) -> Seq<ComponentView>
    decreases path.len(),
{
    let n = stem(path);
    if n == 0 {
        named(path)
    } else {
        proof {
            lemma_stem(path);
        }
        words(path.take(n - 1)) + named(path.skip(n as int))
    }
}

/// A relative path that begins with the current directory.
pub open spec fn begins_here(path: Seq<char>) -> bool {
    path.len() > 0 && path[0] == '.' && (path.len() == 1 || path[1] == '/')
}

/// The components of a path.
pub open spec fn components(path: Seq<char>) -> Seq<ComponentView> {
    if path.len() > 0 && path[0] == '/' {
        seq![ComponentView::Root] + words(path)
    } else if begins_here(path) {
        seq![ComponentView::Current] + words(path)
    } else {
        words(path)
    }
}

/// A path, by its components. Two paths are equal if they have the same components.
#[derive(Debug, Clone, PartialEq, Eq, PartialOrd, Ord, Hash)]
pub struct DirPath {
    components: Vec<Component>,
}

impl View for DirPath {
    type V = Seq<ComponentView>;

    closed spec fn view(&self) -> Seq<ComponentView> {
        component_views(self.components@)
    }
}

/// Adds what stands between two separators to a list of components.
fn put_word(list: &mut Vec<Component>, word: &str)
    ensures
        component_views(final(list)@) == component_views(old(list)@) + named(word@),
{
    let ghost before = component_views(list@);
    if word.unicode_len() == 0 || same_text(word, ".") {
        assert(component_views(list@) =~= before + named(word@));
    } else if same_text(word, "..") {
        list.push(Component::Parent);
        assert(component_views(list@) =~= before + named(word@));
    } else {
        list.push(Component::Name(word.to_owned()));
        assert(component_views(list@) =~= before + named(word@));
    }
}

/// The last separator of a path stands in front of a word without separators.
proof fn lemma_stem_at(path: Seq<char>, at: int)
    requires
        0 <= at <= path.len(),
        at > 0 ==> path[at - 1] == '/',
        forall|i: int| at <= i < path.len() ==> #[trigger] path[i] != '/',
    ensures
        stem(path) == at,
    decreases path.len(),
{
    if path.len() > at {
        assert(path.last() == path[path.len() - 1]);
        lemma_stem_at(path.drop_last(), at);
    } else if at > 0 {
        assert(path.last() == '/');
    }
}

impl DirPath {
    /// The components of a path.
    pub fn new(path: &str) -> (dir: DirPath)
        ensures
            dir@ == components(path@),
    {
        let size: usize = path.unicode_len();
        let mut list: Vec<Component> = Vec::new();
        if size > 0 && path.get_char(0) == '/' {
            list.push(Component::Root);
        } else if size > 0 && path.get_char(0) == '.' && (size == 1 || path.get_char(1) == '/') {
            list.push(Component::Current);
        }
        let ghost front = component_views(list@);
        assert(components(path@) =~= front + words(path@));
        let mut start: usize = 0;
        let mut i: usize = 0;
        while i < size
            invariant
                start <= i <= size,
                size == path@.len(),
                start > 0 ==> path@[start - 1] == '/',
                forall|j: int| start <= j < i ==> #[trigger] path@[j] != '/',
                start == 0 ==> component_views(list@) == front,
                start > 0 ==> component_views(list@) == front + words(path@.take(start - 1)),
            decreases size - i,
        {
            if path.get_char(i) == '/' {
                let ghost before = component_views(list@);
                let ghost here = path@.take(i as int);
                put_word(&mut list, path.substring_char(start, i));
                proof {
                    lemma_stem_at(here, start as int);
                    assert(here.skip(start as int) =~= path@.subrange(start as int, i as int));
                    if start > 0 {
                        assert(here.take(start - 1) =~= path@.take(start - 1));
                    } else {
                        assert(here.skip(0) =~= here);
                    }
                    assert(component_views(list@) =~= front + words(here));
                }
                start = i + 1;
            }
            i += 1;
        }
        put_word(&mut list, path.substring_char(start, size));
        proof {
            lemma_stem_at(path@, start as int);
            assert(path@.skip(start as int) =~= path@.subrange(start as int, size as int));
            assert(path@.skip(0) =~= path@);
            assert(component_views(list@) =~= front + words(path@));
        }
        DirPath { components: list }
    }

    /// Whether two paths are equal.
    pub fn same(&self, other: &DirPath) -> (same: bool)
        ensures
            same == (self@ == other@),
    {
        if self.components.len() != other.components.len() {
            assert(self@.len() != other@.len());
            return false;
        }
        let mut i: usize = 0;
        while i < self.components.len()
            invariant
                i <= self.components.len() == other.components.len(),
                forall|j: int| 0 <= j < i ==> #[trigger] self@[j] == other@[j],
            decreases self.components.len() - i,
        {
            let equal: bool = match (&self.components[i], &other.components[i]) {
                (Component::Root, Component::Root) => true,
                (Component::Current, Component::Current) => true,
                (Component::Parent, Component::Parent) => true,
                (Component::Name(a), Component::Name(b)) => same_text(a.as_str(), b.as_str()),
                _ => false,
            };
            assert(equal == (self@[i as int] == other@[i as int]));
            if !equal {
                return false;
            }
            i += 1;
        }
        assert(self@ =~= other@);
        true
    }
}

/// A separator parts the components before it from those behind it.
pub proof fn law_separators_part_components(a: Seq<char>, b: Seq<char>)
    ensures
        words(a + seq!['/'] + b) == words(a) + words(b),
    decreases b.len(),
{
    let path = a + seq!['/'] + b;
    let n = stem(b);
    lemma_stem(b);
    if n == 0 {
        lemma_stem_at(path, a.len() as int + 1);
        assert(path.take(a.len() as int) =~= a);
        assert(path.skip(a.len() as int + 1) =~= b);
    } else {
        let at = a.len() as int + 1 + n;
        assert forall|i: int| at <= i < path.len() implies #[trigger] path[i] != '/' by {
            assert(path[i] == b[i - a.len() - 1]);
        }
        assert(path[at - 1] == b[n - 1]);
        lemma_stem_at(path, at);
        law_separators_part_components(a, b.take(n - 1));
        assert(path.take(at - 1) =~= a + seq!['/'] + b.take(n - 1));
        assert(path.skip(at) =~= b.skip(n as int));
        assert(words(path) =~= words(a) + words(b));
    }
}

/// Further separators, and `.` between separators, make no other path.
pub proof fn law_extra_separators_do_not_matter(a: Seq<char>, b: Seq<char>)
    requires
        a.len() > 0,
    ensures
        components(a + seq!['/', '/'] + b) == components(a + seq!['/'] + b),
        components(a + seq!['/', '.', '/'] + b) == components(a + seq!['/'] + b),
        components(a + seq!['/']) == components(a),
        components(a + seq!['/', '.']) == components(a),
{
    reveal_strlit(".");
    let nothing = Seq::<char>::empty();
    let dot = seq!['.'];
    assert("."@ =~= dot);
    assert(words(nothing) =~= Seq::<ComponentView>::empty());
    lemma_stem_at(dot, 0);
    assert(words(dot) =~= Seq::<ComponentView>::empty());
    law_separators_part_components(a, b);
    law_separators_part_components(a, nothing);
    law_separators_part_components(a, dot);
    law_separators_part_components(a + seq!['/'], b);
    law_separators_part_components(a + seq!['/', '.'], b);
    assert(a + seq!['/', '/'] + b =~= (a + seq!['/']) + seq!['/'] + b);
    assert(a + seq!['/', '.', '/'] + b =~= (a + seq!['/', '.']) + seq!['/'] + b);
    assert(a + seq!['/'] =~= a + seq!['/'] + nothing);
    assert(a + seq!['/', '.'] =~= a + seq!['/'] + dot);
    assert(words(a) + words(nothing) =~= words(a));
    assert(words(a) + words(dot) =~= words(a));
}

/// A word without separators is a component by itself: the directory above, or a file or a
/// directory of this name, unless it is nothing or the current directory.
pub proof fn law_word_is_a_component(word: Seq<char>)
    requires
        forall|i: int| 0 <= i < word.len() ==> #[trigger] word[i] != '/',
    ensures
        word.len() == 0 || word == seq!['.'] ==> words(word).len() == 0,
        word == seq!['.', '.'] ==> words(word) == seq![ComponentView::Parent],
        word.len() > 0 && word != seq!['.'] && word != seq!['.', '.'] ==> words(word) == seq![
            ComponentView::Name(word),
        ],
{
    reveal_strlit(".");
    reveal_strlit("..");
    assert("."@ =~= seq!['.']);
    assert(".."@ =~= seq!['.', '.']);
    assert(seq!['.'].len() != seq!['.', '.'].len());
    lemma_stem_at(word, 0);
}

/// An absolute path has the root directory in front of its words. A relative path has just its
/// words, with the current directory in front where the path begins with it.
pub proof fn law_front_of_a_path(path: Seq<char>)
    ensures
        components(seq!['/'] + path) == seq![ComponentView::Root] + words(path),
        path.len() == 0 || (path[0] != '/' && path[0] != '.') ==> components(path) == words(path),
        components(seq!['.', '/'] + path) == seq![ComponentView::Current] + words(path),
        components(seq!['.']) == seq![ComponentView::Current],
        path.len() > 1 && path[0] == '.' && path[1] != '/' ==> components(path) == words(path),
{
    let nothing = Seq::<char>::empty();
    let dot = seq!['.'];
    reveal_strlit(".");
    assert("."@ =~= dot);
    law_separators_part_components(nothing, path);
    law_separators_part_components(dot, path);
    assert(nothing + seq!['/'] + path =~= seq!['/'] + path);
    assert(dot + seq!['/'] + path =~= seq!['.', '/'] + path);
    lemma_stem_at(dot, 0);
    assert(words(nothing) =~= Seq::<ComponentView>::empty());
    assert(words(dot) =~= Seq::<ComponentView>::empty());
    assert(words(nothing) + words(path) =~= words(path));
    assert(words(dot) + words(path) =~= words(path));
    assert(seq![ComponentView::Current] + words(dot) =~= seq![ComponentView::Current]);
}

} // verus!
