use vstd::prelude::*;
use crate::order::{lower_of, lex_le, to_lower, lex_le_strings, lemma_lex_le_total,
    lemma_lex_le_trans};

verus! {

broadcast use vstd::std_specs::vec::group_vec_axioms;

/// One filesystem entry in a scanned subtree: a directory carries the fully
/// scanned listing of its contents, a file carries no children at all.
#[derive(Debug, PartialEq, Eq)]
pub struct FileNode {
    pub name: String,
    pub path: String,
    pub is_dir: bool,
    pub children: Option<Vec<FileNode>>,
}

/// The mathematical shape of a `FileNode`: the same fields over sequences.
#[verifier::ext_equal]
pub struct NodeView {
    pub name: Seq<char>,
    pub path: Seq<char>,
    pub is_dir: bool,
    pub children: Option<Seq<NodeView>>,
}

/// The view of one entry.
pub open spec fn node_view(n: FileNode) -> NodeView
    decreases n,
{
    NodeView {
        name: n.name@,
        path: n.path@,
        is_dir: n.is_dir,
        children: match n.children {
            Some(c) => Some(forest_view(c@)),
            None => None,
        },
    }
}

/// The views of a sequence of entries, in order.
pub open spec fn forest_view(s: Seq<FileNode>) -> Seq<NodeView>
    decreases s,
{
    if s.len() == 0 {
        Seq::empty()
    } else {
        forest_view(s.drop_last()).push(node_view(s.last()))
    }
}

/// The number of entries in one subtree, the entry itself included.
pub open spec fn view_size(v: NodeView) -> nat
    decreases v,
{
    1 + match v.children {
        Some(c) => views_size(c),
        None => 0nat,
    }
}

/// The number of entries in a whole sibling group of subtrees.
pub open spec fn views_size(s: Seq<NodeView>) -> nat
    decreases s,
{
    if s.len() == 0 {
        0nat
    } else {
        views_size(s.drop_last()) + view_size(s.last())
    }
}

/// Names excluded from every listing, by exact, case-sensitive comparison.
pub open spec fn denied(name: Seq<char>) -> bool {
    ||| name == ".git"@
    ||| name == "node_modules"@
    ||| name == ".temp"@
    ||| name == ".cache"@
}

/// Decides whether an entry name survives the fixed denylist.
pub fn keep_entry(name: &str) -> (r: bool)
    ensures
        r == !denied(name@),
{
    let owned = name.to_owned();
    !(owned == ".git".to_owned() || owned == "node_modules".to_owned() || owned == ".temp".to_owned()
        || owned == ".cache".to_owned())
}

/// The sibling order: directories before files, then case-insensitive names.
pub open spec fn view_le(a: NodeView, b: NodeView) -> bool {
    if a.is_dir != b.is_dir {
        a.is_dir
    } else {
        lex_le(lower_of(a.name), lower_of(b.name))
    }
}

/// Any two entries are comparable under `view_le`.
pub proof fn lemma_view_le_total(a: NodeView, b: NodeView)
    ensures
        view_le(a, b) || view_le(b, a),
{
    if a.is_dir == b.is_dir {
        lemma_lex_le_total(lower_of(a.name), lower_of(b.name));
    }
}

/// `view_le` is transitive.
pub proof fn lemma_view_le_trans(a: NodeView, b: NodeView, c: NodeView)
    requires
        view_le(a, b),
        view_le(b, c),
    ensures
        view_le(a, c),
{
    if a.is_dir == b.is_dir && b.is_dir == c.is_dir {
        lemma_lex_le_trans(lower_of(a.name), lower_of(b.name), lower_of(c.name));
    }
}

/// Where a new entry lands in an already ordered sibling group: after every
/// entry that compares at or below it, so entries that compare equal keep
/// their existing order.
pub open spec fn insert_view(x: NodeView, s: Seq<NodeView>) -> Seq<NodeView>
    decreases s.len(),
{
    if s.len() == 0 {
        seq![x]
    } else if view_le(s[0], x) {
        seq![s[0]] + insert_view(x, s.drop_first())
    } else {
        seq![x] + s
    }
}

/// The children of a directory view, an empty group when none were recorded.
pub open spec fn child_views(v: NodeView) -> Seq<NodeView> {
    match v.children {
        Some(c) => c,
        None => Seq::empty(),
    }
}

/// What scanning one sibling group returns: denied names dropped, every
/// surviving entry normalized, and the group put in sibling order.
pub open spec fn scan_spec(s: Seq<NodeView>) -> Seq<NodeView>
    decreases views_size(s), 1int,
    via scan_spec_decreases
{
    if s.len() == 0 {
        Seq::empty()
    } else {
        let rest = scan_spec(s.drop_last());
        if denied(s.last().name) {
            rest
        } else {
            insert_view(normalize_view(s.last()), rest)
        }
    }
}

#[via_fn]
proof fn scan_spec_decreases(s: Seq<NodeView>) {
    if s.len() > 0 {
        lemma_views_size_parts(s);
    }
}

/// What scanning one entry returns: a directory gets the scanned form of its
/// children, a file gets no children at all.
pub open spec fn normalize_view(v: NodeView) -> NodeView
    decreases view_size(v), 0int,
{
    NodeView {
        name: v.name,
        path: v.path,
        is_dir: v.is_dir,
        children: if v.is_dir {
            Some(scan_spec(child_views(v)))
        } else {
            None
        },
    }
}

/// `forest_view` maps `node_view` over the group, position by position.
proof fn lemma_forest_view_index(s: Seq<FileNode>)
    ensures
        forest_view(s).len() == s.len(),
        forall|i: int| 0 <= i < s.len() ==> forest_view(s)[i] == node_view(s[i]),
    decreases s.len(),
{
    if s.len() > 0 {
        lemma_forest_view_index(s.drop_last());
    }
}

/// Splitting a non-empty group before its last entry splits its view there.
proof fn lemma_forest_view_drop_last(s: Seq<FileNode>)
    requires
        s.len() > 0,
    ensures
        forest_view(s).drop_last() == forest_view(s.drop_last()),
        forest_view(s).last() == node_view(s.last()),
{
    lemma_forest_view_index(s);
    lemma_forest_view_index(s.drop_last());
    assert(forest_view(s).drop_last() =~= forest_view(s.drop_last()));
}

/// An entry of positive weight always contributes to its group's weight.
proof fn lemma_views_size_parts(s: Seq<NodeView>)
    requires
        s.len() > 0,
    ensures
        views_size(s.drop_last()) < views_size(s),
        view_size(s.last()) <= views_size(s),
{
    assert(view_size(s.last()) >= 1);
}

/// Decides `view_le` on two entries.
fn le_nodes(a: &FileNode, b: &FileNode) -> (r: bool)
    ensures
        r == view_le(node_view(*a), node_view(*b)),
{
    if a.is_dir != b.is_dir {
        a.is_dir
    } else {
        let la = to_lower(a.name.as_str());
        let lb = to_lower(b.name.as_str());
        lex_le_strings(la.as_str(), lb.as_str())
    }
}

/// Inserting before the first entry that does not compare at or below the
/// new one is exactly what `insert_view` does.
proof fn lemma_insert_view_at(x: NodeView, s: Seq<NodeView>, i: int)
    requires
        0 <= i <= s.len(),
        forall|j: int| 0 <= j < i ==> view_le(s[j], x),
        i < s.len() ==> !view_le(s[i], x),
    ensures
        insert_view(x, s) == s.insert(i, x),
    decreases i,
{
    if i == 0 {
        if s.len() == 0 {
            assert(insert_view(x, s) =~= s.insert(0, x));
        } else {
            assert(insert_view(x, s) =~= s.insert(0, x));
        }
    } else {
        assert(view_le(s[0], x));
        lemma_insert_view_at(x, s.drop_first(), i - 1);
        assert(seq![s[0]] + s.drop_first().insert(i - 1, x) =~= s.insert(i, x));
    }
}

/// Puts one scanned entry into an already ordered sibling group, after every
/// entry that compares at or below it.
fn insert_node(x: FileNode, sorted: Vec<FileNode>) -> (out: Vec<FileNode>)
    ensures
        forest_view(out@) == insert_view(node_view(x), forest_view(sorted@)),
{
    let ghost xv = node_view(x);
    let ghost fv = forest_view(sorted@);
    let mut w = sorted;
    let mut i: usize = 0;
    while i < w.len()
        invariant
            w@ == sorted@,
            i <= w@.len(),
            fv == forest_view(sorted@),
            xv == node_view(x),
            forall|j: int| 0 <= j < i ==> view_le(fv[j], xv),
        decreases w@.len() - i,
    {
        let le = le_nodes(&w[i], &x);
        proof {
            lemma_forest_view_index(sorted@);
        }
        if !le {
            proof {
                lemma_insert_view_at(xv, fv, i as int);
            }
            w.insert(i, x);
            proof {
                lemma_forest_view_index(w@);
                assert(forest_view(w@) =~= fv.insert(i as int, xv));
            }
            return w;
        }
        i = i + 1;
    }
    proof {
        lemma_forest_view_index(sorted@);
        lemma_insert_view_at(xv, fv, sorted@.len() as int);
    }
    w.push(x);
    proof {
        lemma_forest_view_index(w@);
        assert(forest_view(w@) =~= fv.insert(sorted@.len() as int, xv));
    }
    w
}

/// Scans one entry: a directory's children are scanned in full, a file ends
/// up with no children at all.
pub fn normalize_entry(n: FileNode) -> (out: FileNode)
    ensures
        node_view(out) == normalize_view(node_view(n)),
    decreases view_size(node_view(n)), 0int,
{
    let FileNode { name, path, is_dir, children } = n;
    if is_dir {
        let cs: Vec<FileNode> = match children {
            Some(c) => c,
            None => Vec::new(),
        };
        proof {
            assert(views_size(forest_view(cs@)) < view_size(node_view(n))) by {
                assert(forest_view(Seq::<FileNode>::empty()) =~= Seq::<NodeView>::empty());
            }
        }
        let scanned = scan_entries(cs);
        let out = FileNode { name, path, is_dir: true, children: Some(scanned) };
        proof {
            assert(forest_view(Seq::<FileNode>::empty()) =~= Seq::<NodeView>::empty());
            assert(node_view(out) =~= normalize_view(node_view(n)));
        }
        out
    } else {
        let out = FileNode { name, path, is_dir: false, children: None };
        proof {
            assert(node_view(out) =~= normalize_view(node_view(n)));
        }
        out
    }
}

/// Scans one sibling group of raw entries: entries with denied names are
/// dropped, directories get their children scanned the same way, and the
/// group comes back in sibling order. A group read from a place that could
/// not be listed is simply empty, so the result is empty too.
pub fn scan_entries(input: Vec<FileNode>) -> (out: Vec<FileNode>)
    ensures
        forest_view(out@) == scan_spec(forest_view(input@)),
    decreases views_size(forest_view(input@)), 1int,
{
    let mut v = input;
    if v.len() == 0 {
        let out: Vec<FileNode> = Vec::new();
        proof {
            assert(forest_view(out@) =~= Seq::<NodeView>::empty());
        }
        return out;
    }
    let n = v.pop().unwrap();
    proof {
        lemma_forest_view_drop_last(input@);
        lemma_views_size_parts(forest_view(input@));
    }
    let rest = scan_entries(v);
    let keep = keep_entry(n.name.as_str());
    if !keep {
        return rest;
    }
    let node = normalize_entry(n);
    let out = insert_node(node, rest);
    out
}

/// No entry in this subtree, at any depth, bears a denied name.
pub open spec fn node_clean(v: NodeView) -> bool
    decreases v,
{
    &&& !denied(v.name)
    &&& match v.children {
        Some(c) => forall|i: int| 0 <= i < c.len() ==> node_clean(#[trigger] c[i]),
        None => true,
    }
}

/// No entry in any of these subtrees bears a denied name.
pub open spec fn forest_clean(s: Seq<NodeView>) -> bool {
    forall|i: int| 0 <= i < s.len() ==> node_clean(#[trigger] s[i])
}

/// Directory entries carry a children group, file entries carry none,
/// at every depth of this subtree.
pub open spec fn node_shaped(v: NodeView) -> bool
    decreases v,
{
    &&& (v.is_dir <==> v.children is Some)
    &&& match v.children {
        Some(c) => forall|i: int| 0 <= i < c.len() ==> node_shaped(#[trigger] c[i]),
        None => true,
    }
}

/// Every subtree in the group is well shaped.
pub open spec fn forest_shaped(s: Seq<NodeView>) -> bool {
    forall|i: int| 0 <= i < s.len() ==> node_shaped(#[trigger] s[i])
}

/// One sibling group stands in sibling order.
pub open spec fn level_ordered(s: Seq<NodeView>) -> bool {
    forall|i: int, j: int| 0 <= i < j < s.len() ==> view_le(#[trigger] s[i], #[trigger] s[j])
}

/// Every sibling group in this subtree stands in sibling order.
pub open spec fn node_ordered(v: NodeView) -> bool
    decreases v,
{
    match v.children {
        Some(c) => level_ordered(c) && forall|i: int|
            0 <= i < c.len() ==> node_ordered(#[trigger] c[i]),
        None => true,
    }
}

/// Every sibling group in all of these subtrees stands in sibling order.
pub open spec fn forest_ordered(s: Seq<NodeView>) -> bool {
    level_ordered(s) && forall|i: int| 0 <= i < s.len() ==> node_ordered(#[trigger] s[i])
}

/// Every entry of `insert_view(x, s)` is `x` or one of the entries of `s`.
proof fn lemma_insert_view_elems(x: NodeView, s: Seq<NodeView>)
    ensures
        insert_view(x, s).len() == s.len() + 1,
        forall|k: int|
            0 <= k < s.len() + 1 ==> (#[trigger] insert_view(x, s)[k] == x || exists|j: int|
                0 <= j < s.len() && insert_view(x, s)[k] == s[j]),
    decreases s.len(),
{
    if s.len() == 0 {
    } else if view_le(s[0], x) {
        lemma_insert_view_elems(x, s.drop_first());
        assert forall|k: int| 0 <= k < s.len() + 1 implies (#[trigger] insert_view(x, s)[k] == x
            || exists|j: int| 0 <= j < s.len() && insert_view(x, s)[k] == s[j]) by {
            if k == 0 {
                assert(insert_view(x, s)[0] == s[0]);
            } else {
                let t = s.drop_first();
                assert(insert_view(x, s)[k] == insert_view(x, t)[k - 1]);
                if insert_view(x, t)[k - 1] == x {
                } else {
                    let j = choose|j: int| 0 <= j < t.len() && insert_view(x, t)[k - 1] == t[j];
                    assert(insert_view(x, s)[k] == s[j + 1]);
                }
            }
        }
    } else {
        assert forall|k: int| 0 <= k < s.len() + 1 implies (#[trigger] insert_view(x, s)[k] == x
            || exists|j: int| 0 <= j < s.len() && insert_view(x, s)[k] == s[j]) by {
            if k > 0 {
                assert(insert_view(x, s)[k] == s[k - 1]);
            }
        }
    }
}

/// Inserting into an ordered sibling group keeps it ordered.
proof fn lemma_insert_view_sorted(x: NodeView, s: Seq<NodeView>)
    requires
        level_ordered(s),
    ensures
        level_ordered(insert_view(x, s)),
    decreases s.len(),
{
    if s.len() == 0 {
    } else if view_le(s[0], x) {
        let t = s.drop_first();
        lemma_insert_view_sorted(x, t);
        lemma_insert_view_elems(x, t);
        let r = insert_view(x, s);
        assert forall|i: int, j: int| 0 <= i < j < r.len() implies view_le(
            #[trigger] r[i],
            #[trigger] r[j],
        ) by {
            if i == 0 {
                assert(r[0] == s[0]);
                if r[j] == x {
                } else if insert_view(x, t)[j - 1] == x {
                } else {
                    let w = choose|w: int|
                        0 <= w < t.len() && insert_view(x, t)[j - 1] == t[w];
                    assert(r[j] == s[w + 1]);
                }
            } else {
                assert(r[i] == insert_view(x, t)[i - 1]);
                assert(r[j] == insert_view(x, t)[j - 1]);
            }
        }
    } else {
        lemma_view_le_total(x, s[0]);
        let r = insert_view(x, s);
        assert forall|i: int, j: int| 0 <= i < j < r.len() implies view_le(
            #[trigger] r[i],
            #[trigger] r[j],
        ) by {
            if i == 0 {
                assert(r[j] == s[j - 1]);
                if j - 1 > 0 {
                    lemma_view_le_trans(x, s[0], s[j - 1]);
                }
            } else {
                assert(r[i] == s[i - 1]);
                assert(r[j] == s[j - 1]);
            }
        }
    }
}

/// No entry with a denied name survives a scan, at any nesting level.
pub proof fn lemma_scan_clean(s: Seq<NodeView>)
    ensures
        forest_clean(scan_spec(s)),
    decreases views_size(s), 1int,
{
    if s.len() > 0 {
        lemma_views_size_parts(s);
        lemma_scan_clean(s.drop_last());
        if !denied(s.last().name) {
            lemma_normalize_clean(s.last());
            lemma_insert_view_elems(normalize_view(s.last()), scan_spec(s.drop_last()));
        }
    }
}

/// A scanned entry with an allowed name is clean throughout.
pub proof fn lemma_normalize_clean(v: NodeView)
    requires
        !denied(v.name),
    ensures
        node_clean(normalize_view(v)),
    decreases view_size(v), 0int,
{
    if v.is_dir {
        assert(views_size(Seq::<NodeView>::empty()) == 0);
        assert(views_size(child_views(v)) < view_size(v));
        lemma_scan_clean(child_views(v));
    }
}

/// Every scanned entry is well shaped: directories carry a children group,
/// files carry none, at every depth.
pub proof fn lemma_scan_shaped(s: Seq<NodeView>)
    ensures
        forest_shaped(scan_spec(s)),
    decreases views_size(s), 1int,
{
    if s.len() > 0 {
        lemma_views_size_parts(s);
        lemma_scan_shaped(s.drop_last());
        if !denied(s.last().name) {
            lemma_normalize_shaped(s.last());
            lemma_insert_view_elems(normalize_view(s.last()), scan_spec(s.drop_last()));
        }
    }
}

/// A scanned entry is well shaped throughout.
pub proof fn lemma_normalize_shaped(v: NodeView)
    ensures
        node_shaped(normalize_view(v)),
    decreases view_size(v), 0int,
{
    if v.is_dir {
        assert(views_size(Seq::<NodeView>::empty()) == 0);
        assert(views_size(child_views(v)) < view_size(v));
        lemma_scan_shaped(child_views(v));
    }
}

/// Every sibling group a scan returns stands in sibling order: directories
/// before files, case-insensitive names non-decreasing, at every depth.
pub proof fn lemma_scan_ordered(s: Seq<NodeView>)
    ensures
        forest_ordered(scan_spec(s)),
    decreases views_size(s), 1int,
{
    if s.len() > 0 {
        lemma_views_size_parts(s);
        lemma_scan_ordered(s.drop_last());
        if !denied(s.last().name) {
            lemma_normalize_ordered(s.last());
            lemma_insert_view_sorted(normalize_view(s.last()), scan_spec(s.drop_last()));
            lemma_insert_view_elems(normalize_view(s.last()), scan_spec(s.drop_last()));
        }
    }
}

/// Each sibling group inside a scanned entry stands in sibling order.
pub proof fn lemma_normalize_ordered(v: NodeView)
    ensures
        node_ordered(normalize_view(v)),
    decreases view_size(v), 0int,
{
    if v.is_dir {
        assert(views_size(Seq::<NodeView>::empty()) == 0);
        assert(views_size(child_views(v)) < view_size(v));
        lemma_scan_ordered(child_views(v));
    }
}

/// The entries of one sibling group that survive a scan, each in scanned
/// form, in their original order.
pub open spec fn kept_views(s: Seq<NodeView>) -> Seq<NodeView>
    decreases s.len(),
{
    if s.len() == 0 {
        Seq::empty()
    } else {
        let rest = kept_views(s.drop_last());
        if denied(s.last().name) {
            rest
        } else {
            rest.push(normalize_view(s.last()))
        }
    }
}

/// Ordering an entry into a group neither loses nor invents entries.
proof fn lemma_insert_view_multiset(x: NodeView, s: Seq<NodeView>)
    ensures
        insert_view(x, s).to_multiset() == s.to_multiset().insert(x),
    decreases s.len(),
{
    broadcast use vstd::seq_lib::group_to_multiset_ensures;
    broadcast use vstd::multiset::group_multiset_axioms;

    if s.len() == 0 {
        assert(seq![x] =~= Seq::<NodeView>::empty().push(x));
    } else if view_le(s[0], x) {
        let t = s.drop_first();
        lemma_insert_view_multiset(x, t);
        vstd::seq_lib::lemma_multiset_commutative(seq![s[0]], insert_view(x, t));
        assert(s =~= seq![s[0]] + t);
        vstd::seq_lib::lemma_multiset_commutative(seq![s[0]], t);
        assert(seq![s[0]].to_multiset().add(t.to_multiset().insert(x)) =~= (seq![
            s[0],
        ].to_multiset().add(t.to_multiset())).insert(x));
    } else {
        vstd::seq_lib::lemma_multiset_commutative(seq![x], s);
        assert(seq![x] =~= Seq::<NodeView>::empty().push(x));
        assert(seq![x].to_multiset().add(s.to_multiset()) =~= s.to_multiset().insert(x));
    }
}

/// A scan neither loses nor invents entries: as an unordered collection,
/// one scanned sibling group holds exactly the entries with allowed names,
/// each in scanned form.
pub proof fn lemma_scan_content(s: Seq<NodeView>)
    ensures
        scan_spec(s).to_multiset() == kept_views(s).to_multiset(),
    decreases s.len(),
{
    broadcast use vstd::seq_lib::group_to_multiset_ensures;

    if s.len() > 0 {
        lemma_scan_content(s.drop_last());
        if !denied(s.last().name) {
            lemma_insert_view_multiset(normalize_view(s.last()), scan_spec(s.drop_last()));
        }
    }
}

/// Scanning an empty sibling group gives an empty listing; a place that
/// could not be listed is handed in as an empty group, so it comes back as
/// an empty listing rather than an error.
pub proof fn lemma_scan_of_empty()
    ensures
        scan_spec(Seq::<NodeView>::empty()) == Seq::<NodeView>::empty(),
{
}

/// In an ordered sibling group every directory entry precedes every file
/// entry, and within the directories and within the files the lowercased
/// names are non-decreasing.
pub proof fn lemma_ordered_groups(s: Seq<NodeView>)
    requires
        level_ordered(s),
    ensures
        forall|i: int, j: int| 0 <= i < j < s.len() && #[trigger] s[j].is_dir ==> #[trigger]
            s[i].is_dir,
        forall|i: int, j: int|
            0 <= i < j < s.len() && #[trigger] s[i].is_dir == #[trigger] s[j].is_dir ==> lex_le(
                lower_of(s[i].name),
                lower_of(s[j].name),
            ),
{
    assert forall|i: int, j: int| 0 <= i < j < s.len() && #[trigger] s[j].is_dir implies
        #[trigger] s[i].is_dir by {
        assert(view_le(s[i], s[j]));
    }
    assert forall|i: int, j: int|
        0 <= i < j < s.len() && #[trigger] s[i].is_dir == #[trigger] s[j].is_dir implies lex_le(
        lower_of(s[i].name),
        lower_of(s[j].name),
    ) by {
        assert(view_le(s[i], s[j]));
    }
}

} // verus!
