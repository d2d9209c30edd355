//! The document tree: text and element nodes, and the attribute map an
//! element carries. Attribute keys are unique and kept sorted, so two
//! maps holding the same pairs are equal values; the `class` attribute is
//! one space-separated string, exploded into a set on demand.

use crate::text::lemma_lex_connex;
use crate::text::lemma_lex_irrefl;
use crate::text::lemma_lex_trans;
use crate::text::lex_lt;
use crate::text::str_eq;
use crate::text::str_lt;
use crate::text::string_push_char;
use crate::text::StrSet;
use vstd::prelude::*;

verus! {

broadcast use vstd::std_specs::vec::group_vec_axioms;

/// What a key maps to in an ordered list of pairs: the value beside its
/// first occurrence.
pub open spec fn spec_attrs_get(entries: Seq<(Seq<char>, Seq<char>)>, k: Seq<char>) -> Option<
    Seq<char>,
>
    decreases entries.len(),
{
    if entries.len() == 0 {
        None
    } else if entries[0].0 == k {
        Some(entries[0].1)
    } else {
        spec_attrs_get(entries.skip(1), k)
    }
}

/// An element's attributes: key-value pairs with unique keys, kept
/// sorted by key.
#[derive(Debug, Clone, PartialEq, Eq, Default)]
pub struct AttrMap {
    entries: Vec<(String, String)>,
}

impl AttrMap {
    /// The pairs in sorted key order.
    pub closed spec fn seq_view(&self) -> Seq<(Seq<char>, Seq<char>)> {
        Seq::new(self.entries@.len(), |i: int| (self.entries@[i].0@, self.entries@[i].1@))
    }

    /// Keys sorted strictly ascending, hence unique.
    pub closed spec fn wf(&self) -> bool {
        forall|i: int, j: int|
            0 <= i < j < self.seq_view().len() ==> lex_lt(
                self.seq_view()[i].0,
                self.seq_view()[j].0,
            )
    }

    /// The empty map.
    pub fn new() -> (r: AttrMap)
        ensures
            r.wf(),
            r.seq_view() =~= Seq::<(Seq<char>, Seq<char>)>::empty(),
    {
        AttrMap { entries: Vec::new() }
    }

    /// How many attributes the map holds.
    pub fn len(&self) -> (r: usize)
        ensures
            r == self.seq_view().len(),
    {
        self.entries.len()
    }

    /// The pair at a position of the sorted order.
    pub fn entry_at(&self, i: usize) -> (r: &(String, String))
        requires
            i < self.seq_view().len(),
        ensures
            r.0@ == self.seq_view()[i as int].0,
            r.1@ == self.seq_view()[i as int].1,
    {
        &self.entries[i]
    }

    /// The value stored under `k`, if any.
    pub fn get(&self, k: &str) -> (r: Option<&String>)
        ensures
            match r {
                Some(v) => spec_attrs_get(self.seq_view(), k@) == Some(v@),
                None => spec_attrs_get(self.seq_view(), k@) is None,
            },
    {
        let n = self.entries.len();
        proof {
            assert(self.seq_view().skip(0) =~= self.seq_view());
        }
        let mut i: usize = 0;
        while i < n
            invariant
                0 <= i <= n,
                n == self.entries@.len(),
                spec_attrs_get(self.seq_view(), k@) == spec_attrs_get(
                    self.seq_view().skip(i as int),
                    k@,
                ),
            decreases n - i,
        {
            proof {
                assert(self.seq_view().skip(i as int)[0] == self.seq_view()[i as int]);
            }
            if str_eq(self.entries[i].0.as_str(), k) {
                return Some(&self.entries[i].1);
            }
            proof {
                assert(self.seq_view().skip(i as int).skip(1) =~= self.seq_view().skip(i + 1));
            }
            i = i + 1;
        }
        proof {
            assert(self.seq_view().skip(n as int).len() == 0);
        }
        None
    }

    /// Stores `v` under `k`, replacing what an equal key held before.
    pub fn insert(&mut self, k: String, v: String)
        requires
            old(self).wf(),
        ensures
            final(self).wf(),
            spec_attrs_get(final(self).seq_view(), k@) == Some::<Seq<char>>(v@),
            forall|k2: Seq<char>|
                k2 != k@ ==> #[trigger] spec_attrs_get(final(self).seq_view(), k2)
                    == spec_attrs_get(old(self).seq_view(), k2),
    {
        let n = self.entries.len();
        let mut i: usize = 0;
        let mut stop = false;
        while i < n && !stop
            invariant
                0 <= i <= n,
                old(self).wf(),
                *self == *old(self),
                n == self.entries@.len(),
                forall|j: int| 0 <= j < i ==> lex_lt(self.seq_view()[j].0, k@),
                stop ==> i < n && lex_lt(k@, self.seq_view()[i as int].0),
            decreases n - i + if stop { 0int } else { 1int },
        {
            if str_eq(self.entries[i].0.as_str(), k.as_str()) {
                let ghost old_seq = self.seq_view();
                self.entries.set(i, (k, v));
                proof {
                    assert(self.seq_view() =~= old_seq.update(i as int, (k@, v@)));
                    lemma_attrs_get_sorted(old_seq, self.seq_view(), i as int, k@, v@);
                }
                return;
            }
            if str_lt(k.as_str(), self.entries[i].0.as_str()) {
                stop = true;
            } else {
                proof {
                    lemma_lex_connex(self.seq_view()[i as int].0, k@);
                }
                i = i + 1;
            }
        }
        let ghost old_seq = self.seq_view();
        self.entries.insert(i, (k, v));
        proof {
            assert(self.seq_view() =~= old_seq.insert(i as int, (k@, v@)));
            lemma_attrs_insert_fresh(old_seq, self.seq_view(), i as int, k@, v@);
        }
    }
}

/// After an in-place update at the position whose key is `k`, in a map
/// whose keys below that position all sort before `k`, lookups of `k`
/// find the new value and other lookups are unchanged.
proof fn lemma_attrs_get_sorted(
    old_seq: Seq<(Seq<char>, Seq<char>)>,
    new_seq: Seq<(Seq<char>, Seq<char>)>,
    i: int,
    k: Seq<char>,
    v: Seq<char>,
)
    requires
        0 <= i < old_seq.len(),
        old_seq[i].0 == k,
        new_seq == old_seq.update(i, (k, v)),
        forall|j: int| 0 <= j < i ==> lex_lt(old_seq[j].0, k),
        forall|p: int, q: int| 0 <= p < q < old_seq.len() ==> lex_lt(old_seq[p].0, old_seq[q].0),
    ensures
        forall|p: int, q: int| 0 <= p < q < new_seq.len() ==> lex_lt(new_seq[p].0, new_seq[q].0),
        spec_attrs_get(new_seq, k) == Some(v),
        forall|k2: Seq<char>|
            k2 != k ==> #[trigger] spec_attrs_get(new_seq, k2) == spec_attrs_get(old_seq, k2),
    decreases old_seq.len(),
{
    assert forall|p: int, q: int|
        0 <= p < q < new_seq.len() implies lex_lt(new_seq[p].0, new_seq[q].0) by {
        assert(new_seq[p].0 == old_seq[p].0);
        assert(new_seq[q].0 == old_seq[q].0);
    }
    if i == 0 {
        assert forall|k2: Seq<char>| k2 != k implies #[trigger] spec_attrs_get(new_seq, k2)
            == spec_attrs_get(old_seq, k2) by {
            assert(new_seq.skip(1) =~= old_seq.skip(1));
        }
    } else {
        assert(new_seq.skip(1) =~= old_seq.skip(1).update(i - 1, (k, v)));
        assert forall|j: int| 0 <= j < i - 1 implies lex_lt(old_seq.skip(1)[j].0, k) by {
            assert(old_seq.skip(1)[j] == old_seq[j + 1]);
        }
        assert forall|p: int, q: int|
            0 <= p < q < old_seq.skip(1).len() implies lex_lt(
            old_seq.skip(1)[p].0,
            old_seq.skip(1)[q].0,
        ) by {
            assert(old_seq.skip(1)[p] == old_seq[p + 1]);
            assert(old_seq.skip(1)[q] == old_seq[q + 1]);
        }
        assert(old_seq.skip(1)[i - 1] == old_seq[i as int]);
        lemma_attrs_get_sorted(old_seq.skip(1), new_seq.skip(1), i - 1, k, v);
        assert(new_seq[0] == old_seq[0]);
        assert(old_seq[0].0 != k) by {
            if old_seq[0].0 == k {
                assert(lex_lt(old_seq[0].0, k));
                lemma_lex_irrefl(k);
            }
        }
        assert(spec_attrs_get(new_seq, k) == spec_attrs_get(new_seq.skip(1), k));
        assert forall|k2: Seq<char>| k2 != k implies #[trigger] spec_attrs_get(new_seq, k2)
            == spec_attrs_get(old_seq, k2) by {
            if new_seq[0].0 == k2 {
            } else {
                assert(spec_attrs_get(new_seq, k2) == spec_attrs_get(new_seq.skip(1), k2));
                assert(spec_attrs_get(old_seq, k2) == spec_attrs_get(old_seq.skip(1), k2));
            }
        }
    }
}

/// After inserting a pair whose key is absent, at the position where the
/// keys stay sorted, lookups of that key find the new value and other
/// lookups are unchanged.
proof fn lemma_attrs_insert_fresh(
    old_seq: Seq<(Seq<char>, Seq<char>)>,
    new_seq: Seq<(Seq<char>, Seq<char>)>,
    i: int,
    k: Seq<char>,
    v: Seq<char>,
)
    requires
        0 <= i <= old_seq.len(),
        new_seq == old_seq.insert(i, (k, v)),
        forall|j: int| 0 <= j < i ==> lex_lt(old_seq[j].0, k),
        i < old_seq.len() ==> lex_lt(k, old_seq[i].0),
        forall|p: int, q: int| 0 <= p < q < old_seq.len() ==> lex_lt(old_seq[p].0, old_seq[q].0),
    ensures
        forall|p: int, q: int| 0 <= p < q < new_seq.len() ==> lex_lt(new_seq[p].0, new_seq[q].0),
        spec_attrs_get(new_seq, k) == Some(v),
        forall|k2: Seq<char>|
            k2 != k ==> #[trigger] spec_attrs_get(new_seq, k2) == spec_attrs_get(old_seq, k2),
    decreases old_seq.len(),
{
    assert forall|p: int, q: int|
        0 <= p < q < new_seq.len() implies lex_lt(new_seq[p].0, new_seq[q].0) by {
        if q < i {
            assert(new_seq[p] == old_seq[p]);
            assert(new_seq[q] == old_seq[q]);
        } else if p > i {
            assert(new_seq[p] == old_seq[p - 1]);
            assert(new_seq[q] == old_seq[q - 1]);
        } else if p < i && q == i {
            assert(new_seq[p] == old_seq[p]);
        } else if p < i && q > i {
            assert(new_seq[p] == old_seq[p]);
            assert(new_seq[q] == old_seq[q - 1]);
            assert(lex_lt(old_seq[p].0, k));
            if q - 1 == i {
                assert(lex_lt(k, old_seq[q - 1].0));
            } else {
                assert(lex_lt(old_seq[i as int].0, old_seq[q - 1].0));
                lemma_lex_trans(k, old_seq[i as int].0, old_seq[q - 1].0);
            }
            lemma_lex_trans(old_seq[p].0, k, old_seq[q - 1].0);
        } else if p == i {
            assert(new_seq[q] == old_seq[q - 1]);
            if q - 1 == i {
                assert(lex_lt(k, old_seq[q - 1].0));
            } else {
                assert(lex_lt(old_seq[i as int].0, old_seq[q - 1].0));
                lemma_lex_trans(k, old_seq[i as int].0, old_seq[q - 1].0);
            }
        }
    }
    if i == 0 {
        assert(new_seq[0] == (k, v));
        assert(new_seq.skip(1) =~= old_seq);
    } else {
        assert(new_seq.skip(1) =~= old_seq.skip(1).insert(i - 1, (k, v)));
        assert forall|j: int| 0 <= j < i - 1 implies lex_lt(old_seq.skip(1)[j].0, k) by {
            assert(old_seq.skip(1)[j] == old_seq[j + 1]);
        }
        assert forall|p: int, q: int|
            0 <= p < q < old_seq.skip(1).len() implies lex_lt(
            old_seq.skip(1)[p].0,
            old_seq.skip(1)[q].0,
        ) by {
            assert(old_seq.skip(1)[p] == old_seq[p + 1]);
            assert(old_seq.skip(1)[q] == old_seq[q + 1]);
        }
        if i < old_seq.len() {
            assert(old_seq.skip(1)[i - 1] == old_seq[i as int]);
        }
        lemma_attrs_insert_fresh(old_seq.skip(1), new_seq.skip(1), i - 1, k, v);
        assert(new_seq[0] == old_seq[0]);
        assert(old_seq[0].0 != k) by {
            if old_seq[0].0 == k {
                assert(lex_lt(old_seq[0].0, k));
                lemma_lex_irrefl(k);
            }
        }
        assert(spec_attrs_get(new_seq, k) == spec_attrs_get(new_seq.skip(1), k));
        assert forall|k2: Seq<char>| k2 != k implies #[trigger] spec_attrs_get(new_seq, k2)
            == spec_attrs_get(old_seq, k2) by {
            if new_seq[0].0 == k2 {
            } else {
                assert(spec_attrs_get(new_seq, k2) == spec_attrs_get(new_seq.skip(1), k2));
                assert(spec_attrs_get(old_seq, k2) == spec_attrs_get(old_seq.skip(1), k2));
            }
        }
    }
}

/// A document node: a run of text, or an element with a tag, attributes
/// and ordered children.
#[derive(Debug)]
pub enum Node {
    Text(String),
    Element(ElementData),
}

/// An element: its tag, its attributes, and its children in order.
#[derive(Debug, Default)]
pub struct ElementData {
    pub tag_name: String,
    pub attrs: AttrMap,
    pub children: Vec<Node>,
}

/// The mathematical shape of a `Node`.
pub ghost enum NodeM {
    Text(Seq<char>),
    Element(ElementDataM),
}

/// The mathematical shape of an `ElementData`.
pub ghost struct ElementDataM {
    pub tag_name: Seq<char>,
    pub attrs: Seq<(Seq<char>, Seq<char>)>,
    pub children: Seq<NodeM>,
}

/// The shape of a node.
pub open spec fn node_view(n: Node) -> NodeM
    decreases n, 1int,
{
    match n {
        Node::Text(s) => NodeM::Text(s@),
        Node::Element(d) => NodeM::Element(
            ElementDataM {
                tag_name: d.tag_name@,
                attrs: d.attrs.seq_view(),
                children: nodes_view(d.children, 0),
            },
        ),
    }
}

/// The shapes of the nodes of a vector, from position `i` on.
pub open spec fn nodes_view(cs: Vec<Node>, i: int) -> Seq<NodeM>
    decreases cs, 0int, cs@.len() - i,
{
    if 0 <= i < cs@.len() {
        seq![node_view(cs[i])] + nodes_view(cs, i + 1)
    } else {
        Seq::empty()
    }
}

/// The shapes of sibling nodes line up with their positions.
pub proof fn lemma_nodes_view_index(cs: Vec<Node>, i: int, j: int)
    requires
        0 <= i <= j < cs@.len(),
    ensures
        nodes_view(cs, i).len() == cs@.len() - i,
        nodes_view(cs, i)[j - i] == node_view(cs[j]),
    decreases cs@.len() - i,
{
    if i < cs@.len() {
        assert(nodes_view(cs, i) == seq![node_view(cs[i])] + nodes_view(cs, i + 1));
        if j > i {
            lemma_nodes_view_index(cs, i + 1, j);
        } else {
            if i + 1 < cs@.len() {
                lemma_nodes_view_index(cs, i + 1, i + 1);
            } else {
                assert(nodes_view(cs, i + 1) =~= Seq::empty());
            }
        }
    }
}

impl View for Node {
    type V = NodeM;

    open spec fn view(&self) -> NodeM {
        node_view(*self)
    }
}

impl View for ElementData {
    type V = ElementDataM;

    open spec fn view(&self) -> ElementDataM {
        ElementDataM {
            tag_name: self.tag_name@,
            attrs: self.attrs.seq_view(),
            children: nodes_view(self.children, 0),
        }
    }
}

impl Node {
    /// An element node from its parts.
    pub fn element(tag_name: String, attrs: AttrMap, children: Vec<Node>) -> (r: Node)
        ensures
            r@ == NodeM::Element(
                ElementDataM {
                    tag_name: tag_name@,
                    attrs: attrs.seq_view(),
                    children: nodes_view(children, 0),
                },
            ),
    {
        Node::Element(ElementData { tag_name, attrs, children })
    }

    /// The node's children; a text node has none.
    pub fn children(&self) -> (r: &[Node])
        ensures
            nodes_view_slice(r@) == spec_children(self@),
    {
        match self {
            Node::Text(_) => &[],
            Node::Element(d) => {
                let s = d.children.as_slice();
                proof {
                    lemma_nodes_view_as_seq(d.children, 0);
                }
                s
            },
        }
    }

    /// The node's plain name: its text if it is text, else its tag.
    pub fn simple_name(&self) -> (r: &str)
        ensures
            r@ == spec_simple_name(self@),
    {
        match self {
            Node::Text(s) => s.as_str(),
            Node::Element(d) => d.tag_name.as_str(),
        }
    }
}

/// A node's children in the mathematical shape.
pub open spec fn spec_children(n: NodeM) -> Seq<NodeM> {
    match n {
        NodeM::Text(_) => Seq::empty(),
        NodeM::Element(d) => d.children,
    }
}

/// A node's plain name in the mathematical shape.
pub open spec fn spec_simple_name(n: NodeM) -> Seq<char> {
    match n {
        NodeM::Text(s) => s,
        NodeM::Element(d) => d.tag_name,
    }
}

/// The shapes of the nodes of a borrowed slice.
pub open spec fn nodes_view_slice(cs: Seq<Node>) -> Seq<NodeM> {
    cs.map_values(|c: Node| c@)
}

/// A vector's node shapes, read from the front, are the element-by-element
/// shapes of its contents.
pub proof fn lemma_nodes_view_as_seq(cs: Vec<Node>, i: int)
    requires
        0 <= i <= cs@.len(),
    ensures
        nodes_view(cs, i) =~= cs@.skip(i).map_values(|c: Node| c@),
    decreases cs@.len() - i,
{
    if i < cs@.len() {
        lemma_nodes_view_as_seq(cs, i + 1);
        assert(nodes_view(cs, i) == seq![node_view(cs[i])] + nodes_view(cs, i + 1));
        assert(cs@.skip(i).map_values(|c: Node| c@) =~= seq![node_view(cs[i])] + cs@.skip(i + 1).map_values(
            |c: Node| c@,
        )) by {
            assert(cs@.skip(i)[0] == cs@[i]);
            assert(cs@.skip(i).map_values(|c: Node| c@).len() == cs@.len() - i);
        }
    } else {
        assert(cs@.skip(i).map_values(|c: Node| c@).len() == 0);
    }
}

/// The class set a space-separated attribute string stands for: the
/// segments between spaces, as written, duplicates collapsing into one.
pub open spec fn split_spaces(s: Seq<char>) -> Seq<Seq<char>>
    decreases s.len(),
{
    if s.len() == 0 {
        seq![Seq::<char>::empty()]
    } else if s[0] == ' ' {
        seq![Seq::<char>::empty()] + split_spaces(s.skip(1))
    } else {
        let rest = split_spaces(s.skip(1));
        seq![seq![s[0]] + rest[0]] + rest.skip(1)
    }
}

/// A split never comes back empty.
pub proof fn lemma_split_spaces_len(s: Seq<char>)
    ensures
        split_spaces(s).len() >= 1,
    decreases s.len(),
{
    if s.len() > 0 {
        lemma_split_spaces_len(s.skip(1));
    }
}

/// The segments of a space-separated string, in order.
fn split_classes(s: &str) -> (r: Vec<String>)
    ensures
        r@.map_values(|x: String| x@) == split_spaces(s@),
    decreases s@.len(),
{
    let n = s.unicode_len();
    if n == 0 {
        let mut v: Vec<String> = Vec::new();
        v.push(String::new());
        proof {
            assert(v@.map_values(|x: String| x@) =~= split_spaces(s@));
        }
        v
    } else {
        let c = s.get_char(0);
        let tail = s.substring_char(1, n);
        proof {
            assert(tail@ =~= s@.skip(1));
        }
        let mut rest = split_classes(tail);
        proof {
            lemma_split_spaces_len(tail@);
            assert(rest@.map_values(|x: String| x@).len() == split_spaces(tail@).len());
        }
        if c == ' ' {
            rest.insert(0, String::new());
            proof {
                assert(rest@.map_values(|x: String| x@) =~= split_spaces(s@));
            }
            rest
        } else {
            let first = rest.remove(0);
            let mut head = String::new();
            string_push_char(&mut head, c);
            head.append(first.as_str());
            proof {
                assert(head@ =~= seq![s@[0]] + first@);
            }
            rest.insert(0, head);
            proof {
                let ghost m = rest@.map_values(|x: String| x@);
                let ghost sp = split_spaces(s@);
                assert(sp == seq![seq![s@[0]] + split_spaces(s@.skip(1))[0]] + split_spaces(
                    s@.skip(1),
                ).skip(1));
                assert(m =~= sp);
            }
            rest
        }
    }
}

/// The class set named by an element's shape: the split of its `class`
/// attribute, or nothing when the attribute is absent.
pub open spec fn spec_classes(e: ElementDataM) -> Set<Seq<char>> {
    match spec_attrs_get(e.attrs, "class"@) {
        Some(s) => split_spaces(s).to_set(),
        None => Set::empty(),
    }
}

impl ElementData {
    /// The element's id attribute, if any.
    pub fn id(&self) -> (r: Option<&String>)
        ensures
            match r {
                Some(v) => spec_attrs_get(self@.attrs, "id"@) == Some(v@),
                None => spec_attrs_get(self@.attrs, "id"@) is None,
            },
    {
        self.attrs.get("id")
    }

    /// The element's classes, exploded from its `class` attribute.
    pub fn classes(&self) -> (r: StrSet)
        ensures
            r.wf(),
            r.set_view() =~= spec_classes(self@),
    {
        match self.attrs.get("class") {
            None => StrSet::new(),
            Some(v) => {
                let segs = split_classes(v.as_str());
                let ghost all = segs@.map_values(|x: String| x@);
                let mut set = StrSet::new();
                let n = segs.len();
                let mut i: usize = 0;
                while i < n
                    invariant
                        0 <= i <= n,
                        n == segs@.len(),
                        all == segs@.map_values(|x: String| x@),
                        set.wf(),
                        set.set_view() =~= all.take(i as int).to_set(),
                    decreases n - i,
                {
                    let ghost before = set.set_view();
                    let item = segs[i].clone();
                    proof {
                        assert(item@ == all[i as int]);
                    }
                    set.insert(item);
                    proof {
                        let a = all.take(i as int);
                        let x = all[i as int];
                        assert(all.take(i + 1) =~= a.push(x));
                        assert forall|y: Seq<char>| #[trigger] a.push(x).to_set().contains(y)
                            implies a.to_set().insert(x).contains(y) by {
                            assert(a.push(x).contains(y));
                            let idx = choose|idx: int|
                                0 <= idx < a.push(x).len() && a.push(x)[idx] == y;
                            if idx < a.len() {
                                assert(a[idx] == y);
                                assert(a.contains(y));
                            }
                        }
                        assert forall|y: Seq<char>| #[trigger] a.to_set().insert(x).contains(y)
                            implies a.push(x).to_set().contains(y) by {
                            if y == x {
                                assert(a.push(x)[a.len() as int] == y);
                                assert(a.push(x).contains(y));
                            } else {
                                assert(a.contains(y));
                                let idx = choose|idx: int| 0 <= idx < a.len() && a[idx] == y;
                                assert(a.push(x)[idx] == y);
                                assert(a.push(x).contains(y));
                            }
                        }
                        assert(a.push(x).to_set() =~= a.to_set().insert(x));
                    }
                    i = i + 1;
                }
                proof {
                    assert(all.take(n as int) =~= all);
                }
                set
            },
        }
    }
}

/// The attributes' print form from position `i` on: one ` key=value`
/// piece per attribute, in the map's sorted key order.
pub open spec fn spec_attrs_text(attrs: Seq<(Seq<char>, Seq<char>)>, i: int) -> Seq<char>
    decreases attrs.len() - i,
{
    if 0 <= i < attrs.len() {
        seq![' '] + attrs[i].0 + seq!['='] + attrs[i].1 + spec_attrs_text(attrs, i + 1)
    } else {
        Seq::empty()
    }
}

/// A node's shallow print form: quoted text, or the element's tag and
/// attributes in parentheses, children left out.
pub open spec fn spec_node_text(n: NodeM) -> Seq<char> {
    match n {
        NodeM::Text(s) => seq!['"'] + s + seq!['"'],
        NodeM::Element(d) => seq!['('] + d.tag_name + spec_attrs_text(d.attrs, 0) + seq![')'],
    }
}

/// A node's deep print form: as the shallow form, with each child's
/// deep form appended after a space, inside the parentheses.
pub open spec fn spec_node_text_deep(n: NodeM) -> Seq<char>
    decreases n, 1int,
{
    match n {
        NodeM::Text(s) => seq!['"'] + s + seq!['"'],
        NodeM::Element(d) => seq!['('] + d.tag_name + spec_attrs_text(d.attrs, 0)
            + spec_children_text(d.children, 0) + seq![')'],
    }
}

/// The deep print forms of children from position `i` on, each after a
/// space.
pub open spec fn spec_children_text(cs: Seq<NodeM>, i: int) -> Seq<char>
    decreases cs, 0int, cs.len() - i,
{
    if 0 <= i < cs.len() {
        seq![' '] + spec_node_text_deep(cs[i]) + spec_children_text(cs, i + 1)
    } else {
        Seq::empty()
    }
}

impl Node {
    /// The node's print form without its children.
    pub fn display_string(&self) -> (r: String)
        ensures
            r@ == spec_node_text(self@),
    {
        let mut out = String::new();
        match self {
            Node::Text(s) => {
                string_push_char(&mut out, '"');
                out.append(s.as_str());
                string_push_char(&mut out, '"');
                proof {
                    assert(out@ =~= spec_node_text(self@));
                }
            },
            Node::Element(d) => {
                string_push_char(&mut out, '(');
                out.append(d.tag_name.as_str());
                push_attrs_text(&mut out, &d.attrs);
                string_push_char(&mut out, ')');
                proof {
                    assert(out@ =~= spec_node_text(self@));
                }
            },
        }
        out
    }

    /// The node's print form with its whole subtree.
    #[verifier::loop_isolation(false)]
    pub fn display_string_deep(&self) -> (r: String)
        ensures
            r@ == spec_node_text_deep(self@),
        decreases self@,
    {
        let mut out = String::new();
        match self {
            Node::Text(s) => {
                string_push_char(&mut out, '"');
                out.append(s.as_str());
                string_push_char(&mut out, '"');
                proof {
                    assert(out@ =~= spec_node_text_deep(self@));
                }
            },
            Node::Element(d) => {
                string_push_char(&mut out, '(');
                out.append(d.tag_name.as_str());
                push_attrs_text(&mut out, &d.attrs);
                let ghost kids = self@->Element_0.children;
                proof {
                    assert(self@ == NodeM::Element(d@));
                    lemma_nodes_view_as_seq(d.children, 0);
                    assert(kids =~= nodes_view(d.children, 0));
                }
                let n = d.children.len();
                let ghost base = out@;
                let mut i: usize = 0;
                while i < n
                    invariant
                        0 <= i <= n,
                        out@ + spec_children_text(kids, i as int) == base + spec_children_text(
                            kids,
                            0,
                        ),
                    decreases n - i,
                {
                    proof {
                        lemma_nodes_view_index(d.children, 0, i as int);
                        assert(decreases_to!(self@ => self@->Element_0));
                        assert(decreases_to!(d@ => d@.children));
                        assert(decreases_to!(d@.children => d@.children[i as int]));
                        assert(d.children@[i as int]@ == d@.children[i as int]);
                    }
                    let ghost before = out@;
                    string_push_char(&mut out, ' ');
                    let piece = d.children[i].display_string_deep();
                    out.append(piece.as_str());
                    proof {
                        assert(out@ =~= before + (seq![' '] + spec_node_text_deep(
                            kids[i as int],
                        )));
                        assert(before + (seq![' '] + spec_node_text_deep(kids[i as int]))
                            + spec_children_text(kids, i + 1) =~= before + spec_children_text(
                            kids,
                            i as int,
                        ));
                    }
                    i = i + 1;
                }
                proof {
                    assert(spec_children_text(kids, n as int) =~= Seq::<char>::empty());
                    assert(out@ + Seq::<char>::empty() =~= out@);
                    assert(out@ =~= base + spec_children_text(kids, 0));
                }
                string_push_char(&mut out, ')');
                proof {
                    assert(out@ =~= spec_node_text_deep(self@));
                }
            },
        }
        out
    }
}

/// Appends every attribute's ` key=value` piece in order.
fn push_attrs_text(out: &mut String, attrs: &AttrMap)
    ensures
        final(out)@ == old(out)@ + spec_attrs_text(attrs.seq_view(), 0),
{
    let ghost entries = attrs.seq_view();
    let ghost base = old(out)@;
    let n = attrs.len();
    let mut i: usize = 0;
    while i < n
        invariant
            0 <= i <= n,
            n == entries.len(),
            entries == attrs.seq_view(),
            out@ + spec_attrs_text(entries, i as int) == base + spec_attrs_text(entries, 0),
        decreases n - i,
    {
        let ghost before = out@;
        let entry = attrs.entry_at(i);
        string_push_char(out, ' ');
        out.append(entry.0.as_str());
        string_push_char(out, '=');
        out.append(entry.1.as_str());
        proof {
            assert(out@ =~= before + (seq![' '] + entries[i as int].0 + seq!['='] + entries[
                i as int
            ].1));
            assert(before + (seq![' '] + entries[i as int].0 + seq!['='] + entries[i as int].1)
                + spec_attrs_text(entries, i + 1) =~= before + spec_attrs_text(
                entries,
                i as int,
            ));
        }
        i = i + 1;
    }
    proof {
        assert(spec_attrs_text(entries, n as int) =~= Seq::<char>::empty());
        assert(out@ + Seq::<char>::empty() =~= out@);
    }
}

} // verus!
