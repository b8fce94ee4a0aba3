//! The identity algebra of a statute's revisions: a revision is the sequence of its
//! paragraphs, each with a stable id, and an amendment is a sequence of operations that
//! name paragraphs by id. Paragraph numbers are not stored; they are counted when rendered.
//!
//! - `Replace` rewrites a paragraph whose text is as expected, and records a conflict when
//!   it is not; `Resolve` settles the conflicts;
//! - `InsertAfter` places a new paragraph after an anchor, `Delete` removes one,
//!   `Renumber` moves one to another article without touching its text.

use vstd::prelude::*;
use crate::text::str_eq;

verus! {

/// A paragraph. `art` is the article it belongs to (for rendering only); `conflicts` are the
/// new texts that could not be applied because the text was not the one expected.
#[derive(Debug, Clone, PartialEq, Eq)]
pub struct Node {
    pub id: String,
    pub art: String,
    pub text: String,
    pub conflicts: Vec<String>,
}

/// The value of a [`Node`].
pub struct NodeModel {
    pub id: Seq<char>,
    pub art: Seq<char>,
    pub text: Seq<char>,
    pub conflicts: Seq<Seq<char>>,
}

/// The texts of a vector of strings.
pub open spec fn strings_view(v: Seq<String>) -> Seq<Seq<char>> {
    v.map_values(|s: String| s@)
}

impl View for Node {
    type V = NodeModel;

    open spec fn view(&self) -> NodeModel {
        NodeModel { id: self.id@, art: self.art@, text: self.text@, conflicts: strings_view(self.conflicts@) }
    }
}

/// One revision of a statute: its paragraphs in document order (the table of contents,
/// when there is one, first, under the id `toc`). Numbers are not stored.
#[derive(Debug, Clone, PartialEq, Eq)]
pub struct IdentRevision {
    pub nodes: Vec<Node>,
}

/// The values of a sequence of nodes.
pub open spec fn nodes_view(v: Seq<Node>) -> Seq<NodeModel> {
    v.map_values(|n: Node| n@)
}

impl View for IdentRevision {
    type V = Seq<NodeModel>;

    open spec fn view(&self) -> Seq<NodeModel> {
        nodes_view(self.nodes@)
    }
}

/// An amendment operation; every operation names its paragraph by id.
#[derive(Debug, Clone, PartialEq, Eq)]
pub enum IdentOp {
    /// Rewrites `id` to `new` when its text is `expected`; otherwise records `new` as a conflict.
    Replace { id: String, expected: String, new: String },
    /// Places the paragraph `new_id` right after `anchor`.
    InsertAfter { anchor: String, new_id: String, art: String, text: String },
    /// Removes `id`.
    Delete { id: String },
    /// Settles the conflicts of `id` with the text `text`.
    Resolve { id: String, text: String },
    /// Moves `id` to the article `art`; its text stays.
    Renumber { id: String, art: String },
}

/// The value of an [`IdentOp`].
pub enum IdentOpModel {
    Replace { id: Seq<char>, expected: Seq<char>, new: Seq<char> },
    InsertAfter { anchor: Seq<char>, new_id: Seq<char>, art: Seq<char>, text: Seq<char> },
    Delete { id: Seq<char> },
    Resolve { id: Seq<char>, text: Seq<char> },
    Renumber { id: Seq<char>, art: Seq<char> },
}

impl View for IdentOp {
    type V = IdentOpModel;

    open spec fn view(&self) -> IdentOpModel {
        match self {
            IdentOp::Replace { id, expected, new } => IdentOpModel::Replace { id: id@, expected: expected@, new: new@ },
            IdentOp::InsertAfter { anchor, new_id, art, text } => IdentOpModel::InsertAfter {
                anchor: anchor@,
                new_id: new_id@,
                art: art@,
                text: text@,
            },
            IdentOp::Delete { id } => IdentOpModel::Delete { id: id@ },
            IdentOp::Resolve { id, text } => IdentOpModel::Resolve { id: id@, text: text@ },
            IdentOp::Renumber { id, art } => IdentOpModel::Renumber { id: id@, art: art@ },
        }
    }
}

/// The values of a sequence of operations.
pub open spec fn ops_view(v: Seq<IdentOp>) -> Seq<IdentOpModel> {
    v.map_values(|o: IdentOp| o@)
}

/// The id an operation looks for: its paragraph, or the anchor of an insertion.
pub open spec fn op_key(op: IdentOpModel) -> Seq<char> {
    match op {
        IdentOpModel::Replace { id, .. } => id,
        IdentOpModel::InsertAfter { anchor, .. } => anchor,
        IdentOpModel::Delete { id } => id,
        IdentOpModel::Resolve { id, .. } => id,
        IdentOpModel::Renumber { id, .. } => id,
    }
}

/// The ids an operation reads or writes (an insertion touches its anchor and its new id).
pub open spec fn op_touches(op: IdentOpModel) -> Seq<Seq<char>> {
    match op {
        IdentOpModel::InsertAfter { anchor, new_id, .. } => seq![anchor, new_id],
        _ => seq![op_key(op)],
    }
}

/// The ids whose text an operation changes, creates or removes (not an insertion's anchor).
pub open spec fn op_modifies(op: IdentOpModel) -> Seq<Seq<char>> {
    match op {
        IdentOpModel::InsertAfter { new_id, .. } => seq![new_id],
        _ => seq![op_key(op)],
    }
}

/// The ids an operation creates.
pub open spec fn op_creates(op: IdentOpModel) -> Seq<Seq<char>> {
    match op {
        IdentOpModel::InsertAfter { new_id, .. } => seq![new_id],
        _ => Seq::empty(),
    }
}

/// What an operation puts in place of the paragraph it found.
pub open spec fn op_edit(op: IdentOpModel, x: NodeModel) -> Seq<NodeModel> {
    match op {
        IdentOpModel::Replace { expected, new, .. } => if x.text == expected {
            seq![NodeModel { text: new, ..x }]
        } else {
            seq![NodeModel { conflicts: x.conflicts.push(new), ..x }]
        },
        IdentOpModel::InsertAfter { new_id, art, text, .. } => seq![
            x,
            NodeModel { id: new_id, art, text, conflicts: Seq::empty() },
        ],
        IdentOpModel::Delete { .. } => Seq::empty(),
        IdentOpModel::Resolve { text, .. } => seq![NodeModel { text, conflicts: Seq::empty(), ..x }],
        IdentOpModel::Renumber { art, .. } => seq![NodeModel { art, ..x }],
    }
}

/// Some node has the id `k`.
pub open spec fn has_id(s: Seq<NodeModel>, k: Seq<char>) -> bool {
    exists|i: int| 0 <= i < s.len() && s[i].id == k
}

/// `i` is the position of the first node with the id `k`.
pub open spec fn is_first(s: Seq<NodeModel>, k: Seq<char>, i: int) -> bool {
    &&& 0 <= i < s.len()
    &&& s[i].id == k
    &&& forall|j: int| 0 <= j < i ==> s[j].id != k
}

/// The position of the first node with the id `k`, -1 when there is none.
pub open spec fn first_pos(s: Seq<NodeModel>, k: Seq<char>) -> int {
    if has_id(s, k) {
        choose|i: int| is_first(s, k, i)
    } else {
        -1
    }
}

proof fn lemma_first_exists(s: Seq<NodeModel>, k: Seq<char>, i: int)
    requires
        0 <= i < s.len(),
        s[i].id == k,
    ensures
        exists|m: int| is_first(s, k, m),
    decreases i,
{
    if exists|j: int| 0 <= j < i && s[j].id == k {
        let j = choose|j: int| 0 <= j < i && s[j].id == k;
        lemma_first_exists(s, k, j);
    } else {
        assert(is_first(s, k, i));
    }
}

/// `first_pos` is the first position with the id, or -1 when no node has it.
pub proof fn lemma_first_pos(s: Seq<NodeModel>, k: Seq<char>)
    ensures
        has_id(s, k) ==> is_first(s, k, first_pos(s, k)),
        !has_id(s, k) ==> first_pos(s, k) == -1 && forall|j: int| 0 <= j < s.len() ==> s[j].id != k,
{
    if has_id(s, k) {
        let i = choose|i: int| 0 <= i < s.len() && s[i].id == k;
        lemma_first_exists(s, k, i);
    }
}

/// The first position is unique.
pub proof fn lemma_first_pos_is(s: Seq<NodeModel>, k: Seq<char>, i: int)
    requires
        is_first(s, k, i),
    ensures
        first_pos(s, k) == i,
{
    lemma_first_pos(s, k);
    let f = first_pos(s, k);
    if f < i {
        assert(s[f].id != k);
    } else if f > i {
        assert(s[i].id != k);
    }
}

/// One operation: the first node with the operation's key is replaced by what the operation
/// makes of it; `None` when no node has the key (the operation names what is not there).
pub open spec fn spec_apply_op(r: Seq<NodeModel>, op: IdentOpModel) -> Option<Seq<NodeModel>> {
    let i = first_pos(r, op_key(op));
    if i < 0 {
        None
    } else {
        Some(r.take(i) + op_edit(op, r[i]) + r.skip(i + 1))
    }
}

/// The operations in order; `None` as soon as one fails.
pub open spec fn spec_apply_unit(r: Seq<NodeModel>, u: Seq<IdentOpModel>) -> Option<Seq<NodeModel>>
    decreases u.len(),
{
    if u.len() == 0 {
        Some(r)
    } else {
        match spec_apply_op(r, u[0]) {
            Some(r2) => spec_apply_unit(r2, u.drop_first()),
            None => None,
        }
    }
}


/// The value of an optional revision.
pub open spec fn opt_view(r: Option<IdentRevision>) -> Option<Seq<NodeModel>> {
    match r {
        Some(x) => Some(x@),
        None => None,
    }
}

/// The texts of a sequence of string slices.
pub open spec fn strs_view(v: Seq<&str>) -> Seq<Seq<char>> {
    v.map_values(|s: &str| s@)
}

proof fn lemma_strings_view_push(a: Seq<String>, x: String)
    ensures
        strings_view(a.push(x)) == strings_view(a).push(x@),
{
    assert(strings_view(a.push(x)) =~= strings_view(a).push(x@));
}

proof fn lemma_nodes_view_push(a: Seq<Node>, x: Node)
    ensures
        nodes_view(a.push(x)) == nodes_view(a).push(x@),
{
    assert(nodes_view(a.push(x)) =~= nodes_view(a).push(x@));
}

fn copy_strings(v: &Vec<String>) -> (r: Vec<String>)
    ensures
        strings_view(r@) == strings_view(v@),
{
    let mut r: Vec<String> = Vec::new();
    let mut i: usize = 0;
    while i < v.len()
        invariant
            i <= v.len(),
            strings_view(r@) == strings_view(v@.take(i as int)),
        decreases v.len() - i,
    {
        let c = v[i].clone();
        let ghost r0 = r@;
        r.push(c);
        assert(r@ == r0.push(c));
        assert(v@.take(i + 1) == v@.take(i as int).push(v@[i as int]));
        proof {
            lemma_strings_view_push(r0, c);
            lemma_strings_view_push(v@.take(i as int), v@[i as int]);
        }
        assert(strings_view(r@) =~= strings_view(v@.take(i + 1)));
        i = i + 1;
    }
    assert(v@.take(v.len() as int) == v@);
    r
}

impl Node {
    /// A copy of the node.
    pub fn copy(&self) -> (r: Node)
        ensures
            r@ == self@,
    {
        Node {
            id: self.id.clone(),
            art: self.art.clone(),
            text: self.text.clone(),
            conflicts: copy_strings(&self.conflicts),
        }
    }
}

impl IdentOp {
    /// The ids the operation reads or writes.
    pub fn touches(&self) -> (r: Vec<&str>)
        ensures
            strs_view(r@) == op_touches(self@),
    {
        let mut r: Vec<&str> = Vec::new();
        match self {
            IdentOp::InsertAfter { anchor, new_id, .. } => {
                r.push(anchor.as_str());
                r.push(new_id.as_str());
            },
            _ => {
                r.push(self.key());
            },
        }
        assert(strs_view(r@) =~= op_touches(self@));
        r
    }

    /// The ids whose text the operation changes, creates or removes (not an insertion's anchor).
    pub fn modifies(&self) -> (r: Vec<&str>)
        ensures
            strs_view(r@) == op_modifies(self@),
    {
        let mut r: Vec<&str> = Vec::new();
        match self {
            IdentOp::InsertAfter { new_id, .. } => {
                r.push(new_id.as_str());
            },
            _ => {
                r.push(self.key());
            },
        }
        assert(strs_view(r@) =~= op_modifies(self@));
        r
    }

    /// The ids the operation creates.
    pub fn creates(&self) -> (r: Vec<&str>)
        ensures
            strs_view(r@) == op_creates(self@),
    {
        let mut r: Vec<&str> = Vec::new();
        match self {
            IdentOp::InsertAfter { new_id, .. } => {
                r.push(new_id.as_str());
            },
            _ => {},
        }
        assert(strs_view(r@) =~= op_creates(self@));
        r
    }

    /// The id the operation looks for.
    pub fn key(&self) -> (r: &str)
        ensures
            r@ == op_key(self@),
    {
        match self {
            IdentOp::Replace { id, .. } => id.as_str(),
            IdentOp::Delete { id } => id.as_str(),
            IdentOp::Resolve { id, .. } => id.as_str(),
            IdentOp::Renumber { id, .. } => id.as_str(),
            IdentOp::InsertAfter { anchor, .. } => anchor.as_str(),
        }
    }

    /// What the operation puts in place of the paragraph it found: zero or more paragraphs.
    fn edit(&self, x: &Node) -> (r: Vec<Node>)
        ensures
            nodes_view(r@) == op_edit(self@, x@),
    {
        let mut r: Vec<Node> = Vec::new();
        match self {
            IdentOp::Replace { expected, new, .. } => {
                let mut y = x.copy();
                if str_eq(x.text.as_str(), expected.as_str()) {
                    y.text = new.clone();
                } else {
                    let ghost c0 = y.conflicts@;
                    y.conflicts.push(new.clone());
                    assert(strings_view(y.conflicts@) =~= strings_view(c0).push(new@));
                }
                r.push(y);
            },
            IdentOp::InsertAfter { new_id, art, text, .. } => {
                r.push(x.copy());
                r.push(Node { id: new_id.clone(), art: art.clone(), text: text.clone(), conflicts: Vec::new() });
                assert(strings_view(Seq::<String>::empty()) =~= Seq::<Seq<char>>::empty());
            },
            IdentOp::Delete { .. } => {},
            IdentOp::Resolve { text, .. } => {
                let mut y = x.copy();
                y.text = text.clone();
                y.conflicts = Vec::new();
                assert(strings_view(y.conflicts@) =~= Seq::<Seq<char>>::empty());
                r.push(y);
            },
            IdentOp::Renumber { art, .. } => {
                let mut y = x.copy();
                y.art = art.clone();
                r.push(y);
            },
        }
        assert(nodes_view(r@) =~= op_edit(self@, x@));
        r
    }
}

/// The position of the first node with the id `k`.
fn position_of(nodes: &Vec<Node>, k: &str) -> (r: Option<usize>)
    ensures
        match r {
            Some(i) => is_first(nodes_view(nodes@), k@, i as int),
            None => !has_id(nodes_view(nodes@), k@),
        },
{
    let ghost s = nodes_view(nodes@);
    let mut i: usize = 0;
    while i < nodes.len()
        invariant
            i <= nodes.len(),
            s == nodes_view(nodes@),
            forall|j: int| 0 <= j < i ==> s[j].id != k@,
        decreases nodes.len() - i,
    {
        if str_eq(nodes[i].id.as_str(), k) {
            return Some(i);
        }
        i = i + 1;
    }
    None
}

/// Copies of the nodes from `lo` up to `hi`.
fn copy_range(nodes: &Vec<Node>, lo: usize, hi: usize, out: &mut Vec<Node>)
    requires
        lo <= hi <= nodes.len(),
    ensures
        nodes_view(final(out)@) == nodes_view(old(out)@) + nodes_view(nodes@).subrange(lo as int, hi as int),
{
    let mut i: usize = lo;
    while i < hi
        invariant
            lo <= i <= hi <= nodes.len(),
            nodes_view(out@) == nodes_view(old(out)@) + nodes_view(nodes@).subrange(lo as int, i as int),
        decreases hi - i,
    {
        let c = nodes[i].copy();
        let ghost o0 = out@;
        out.push(c);
        assert(out@ == o0.push(c));
        assert(nodes_view(nodes@).subrange(lo as int, i + 1) == nodes_view(nodes@).subrange(lo as int, i as int).push(c@));
        proof {
            lemma_nodes_view_push(o0, c);
        }
        assert(nodes_view(out@) =~= nodes_view(old(out)@) + nodes_view(nodes@).subrange(lo as int, i + 1));
        i = i + 1;
    }
}

/// Applies one operation: finds the first node with the operation's key and replaces it by
/// what the operation makes of it. `None` when no node has the key (the operation names
/// what the revision does not have).
pub fn apply_op(r: &IdentRevision, op: &IdentOp) -> (out: Option<IdentRevision>)
    ensures
        opt_view(out) == spec_apply_op(r@, op@),
{
    let i = match position_of(&r.nodes, op.key()) {
        Some(i) => i,
        None => {
            proof {
                lemma_first_pos(r@, op_key(op@));
            }
            return None;
        },
    };
    proof {
        lemma_first_pos_is(r@, op_key(op@), i as int);
    }
    assert(i < r.nodes.len());
    let mut nodes: Vec<Node> = Vec::new();
    copy_range(&r.nodes, 0, i, &mut nodes);
    let mut e = op.edit(&r.nodes[i]);
    let ghost before = nodes@;
    let ghost e0 = e@;
    nodes.append(&mut e);
    assert(nodes_view(nodes@) =~= nodes_view(before) + nodes_view(e0));
    copy_range(&r.nodes, i + 1, r.nodes.len(), &mut nodes);
    let out = IdentRevision { nodes };
    assert(out@ =~= r@.take(i as int) + op_edit(op@, r@[i as int]) + r@.skip(i + 1));
    Some(out)
}

/// Applies the operations of an amendment in order; `None` as soon as one fails.
pub fn apply_unit(r: &IdentRevision, u: &[IdentOp]) -> (out: Option<IdentRevision>)
    ensures
        opt_view(out) == spec_apply_unit(r@, ops_view(u@)),
{
    let ghost ops = ops_view(u@);
    let mut cur = IdentRevision { nodes: Vec::new() };
    copy_range(&r.nodes, 0, r.nodes.len(), &mut cur.nodes);
    assert(cur@ =~= r@);
    assert(ops.skip(0) =~= ops);
    let mut i: usize = 0;
    while i < u.len()
        invariant
            i <= u.len(),
            ops == ops_view(u@),
            spec_apply_unit(r@, ops) == spec_apply_unit(cur@, ops.skip(i as int)),
        decreases u.len() - i,
    {
        assert(ops.skip(i as int)[0] == u@[i as int]@);
        assert(ops.skip(i as int).drop_first() == ops.skip(i + 1));
        match apply_op(&cur, &u[i]) {
            Some(next) => {
                cur = next;
            },
            None => {
                return None;
            },
        }
        i = i + 1;
    }
    assert(ops.skip(u.len() as int).len() == 0);
    Some(cur)
}


/// No two nodes share an id.
pub open spec fn spec_wf(r: Seq<NodeModel>) -> bool {
    forall|i: int, j: int| 0 <= i < j < r.len() ==> r[i].id != r[j].id
}

/// Some node has unresolved conflicts.
pub open spec fn spec_has_conflict(r: Seq<NodeModel>) -> bool {
    exists|i: int| 0 <= i < r.len() && r[i].conflicts.len() > 0
}

/// `(id, text, conflicts)` of each node with conflicts, in document order.
pub open spec fn spec_conflicts(r: Seq<NodeModel>) -> Seq<(Seq<char>, Seq<char>, Seq<Seq<char>>)>
    decreases r.len(),
{
    if r.len() == 0 {
        Seq::empty()
    } else {
        let n = r.last();
        spec_conflicts(r.drop_last()) + if n.conflicts.len() > 0 {
            seq![(n.id, n.text, n.conflicts)]
        } else {
            Seq::empty()
        }
    }
}

/// The number of nodes in `s` that belong to the article `art`.
pub open spec fn count_in_art(s: Seq<NodeModel>, art: Seq<char>) -> nat
    decreases s.len(),
{
    if s.len() == 0 {
        0
    } else {
        count_in_art(s.drop_last(), art) + if s.last().art == art { 1nat } else { 0nat }
    }
}

/// The paragraph number of `id`, counted when rendered: one more than the number of nodes
/// of the same article before the first node with that id; `None` when no node has it.
pub open spec fn spec_para_num(r: Seq<NodeModel>, id: Seq<char>) -> Option<nat> {
    let i = first_pos(r, id);
    if i < 0 {
        None
    } else {
        Some(count_in_art(r.take(i), r[i].art) + 1)
    }
}

/// The rendering without ids: `(article, text)` of each node in order.
pub open spec fn spec_render(r: Seq<NodeModel>) -> Seq<(Seq<char>, Seq<char>)> {
    r.map_values(|n: NodeModel| (n.art, n.text))
}

/// The texts of `(article, text)` pairs.
pub open spec fn pairs_view(v: Seq<(String, String)>) -> Seq<(Seq<char>, Seq<char>)> {
    v.map_values(|p: (String, String)| (p.0@, p.1@))
}

impl IdentRevision {
    /// No two nodes share an id.
    pub fn wf(&self) -> (r: bool)
        ensures
            r == spec_wf(self@),
    {
        let ghost s = self@;
        let mut j: usize = 0;
        while j < self.nodes.len()
            invariant
                j <= self.nodes.len(),
                s == self@,
                forall|a: int, b: int| 0 <= a < b < j ==> s[a].id != s[b].id,
            decreases self.nodes.len() - j,
        {
            let mut i: usize = 0;
            while i < j
                invariant
                    i <= j < self.nodes.len(),
                    s == self@,
                    forall|a: int, b: int| 0 <= a < b < j ==> s[a].id != s[b].id,
                    forall|a: int| 0 <= a < i ==> s[a].id != s[j as int].id,
                decreases j - i,
            {
                if str_eq(self.nodes[i].id.as_str(), self.nodes[j].id.as_str()) {
                    assert(s[i as int].id == s[j as int].id);
                    return false;
                }
                i = i + 1;
            }
            j = j + 1;
        }
        true
    }

    /// Some node has unresolved conflicts.
    pub fn has_conflict(&self) -> (r: bool)
        ensures
            r == spec_has_conflict(self@),
    {
        let mut i: usize = 0;
        while i < self.nodes.len()
            invariant
                i <= self.nodes.len(),
                forall|k: int| 0 <= k < i ==> self@[k].conflicts.len() == 0,
            decreases self.nodes.len() - i,
        {
            if self.nodes[i].conflicts.len() > 0 {
                assert(self@[i as int].conflicts.len() > 0);
                return true;
            }
            i = i + 1;
        }
        false
    }

    /// `(id, text, conflicts)` of each node with unresolved conflicts, in document order.
    pub fn conflicts(&self) -> (r: Vec<(&str, &str, &[String])>)
        ensures
            r@.map_values(|c: (&str, &str, &[String])| (c.0@, c.1@, strings_view(c.2@))) == spec_conflicts(self@),
    {
        let mut r: Vec<(&str, &str, &[String])> = Vec::new();
        let mut i: usize = 0;
        while i < self.nodes.len()
            invariant
                i <= self.nodes.len(),
                r@.map_values(|c: (&str, &str, &[String])| (c.0@, c.1@, strings_view(c.2@))) == spec_conflicts(self@.take(i as int)),
            decreases self.nodes.len() - i,
        {
            let n = &self.nodes[i];
            assert(self@.take(i + 1).drop_last() == self@.take(i as int));
            assert(self@.take(i + 1).last() == n@);
            let ghost r0 = r@;
            if n.conflicts.len() > 0 {
                r.push((n.id.as_str(), n.text.as_str(), n.conflicts.as_slice()));
            }
            assert(r@.map_values(|c: (&str, &str, &[String])| (c.0@, c.1@, strings_view(c.2@))) =~= spec_conflicts(self@.take(i + 1)));
            i = i + 1;
        }
        assert(self@.take(self.nodes.len() as int) == self@);
        r
    }

    /// The paragraph number of `id`, counted when rendered: its place among the nodes of its
    /// article, from 1.
    pub fn para_num(&self, id: &str) -> (r: Option<usize>)
        ensures
            match r {
                Some(n) => spec_para_num(self@, id@) == Some(n as nat),
                None => spec_para_num(self@, id@) is None,
            },
    {
        let i = match position_of(&self.nodes, id) {
            Some(i) => i,
            None => {
                proof {
                    lemma_first_pos(self@, id@);
                }
                return None;
            },
        };
        proof {
            lemma_first_pos_is(self@, id@, i as int);
        }
        let art = self.nodes[i].art.as_str();
        let mut count: usize = 0;
        let mut k: usize = 0;
        while k < i
            invariant
                k <= i < self.nodes.len(),
                art@ == self@[i as int].art,
                count == count_in_art(self@.take(k as int), art@),
                count <= k,
            decreases i - k,
        {
            assert(self@.take(k + 1).drop_last() == self@.take(k as int));
            if str_eq(self.nodes[k].art.as_str(), art) {
                count = count + 1;
            }
            k = k + 1;
        }
        Some(count + 1)
    }

    /// The rendering without ids: `(article, text)` of each node. A revision agrees with
    /// the official one when their renderings are equal.
    pub fn render(&self) -> (r: Vec<(String, String)>)
        ensures
            pairs_view(r@) == spec_render(self@),
    {
        let mut r: Vec<(String, String)> = Vec::new();
        let mut i: usize = 0;
        while i < self.nodes.len()
            invariant
                i <= self.nodes.len(),
                pairs_view(r@) == spec_render(self@.take(i as int)),
            decreases self.nodes.len() - i,
        {
            let p = (self.nodes[i].art.clone(), self.nodes[i].text.clone());
            let ghost r0 = r@;
            r.push(p);
            assert(r@ == r0.push(p));
            assert(pairs_view(r0.push(p)) =~= pairs_view(r0).push((p.0@, p.1@)));
            assert(self@.take(i + 1) == self@.take(i as int).push(self@[i as int]));
            assert(spec_render(self@.take(i + 1)) =~= spec_render(self@.take(i as int)).push((p.0@, p.1@)));
            assert(pairs_view(r@) =~= spec_render(self@.take(i + 1)));
            i = i + 1;
        }
        assert(self@.take(self.nodes.len() as int) == self@);
        r
    }
}

/// The ids the operations of a unit touch, operation by operation.
pub open spec fn unit_touches(u: Seq<IdentOpModel>) -> Seq<Seq<char>>
    decreases u.len(),
{
    if u.len() == 0 {
        Seq::empty()
    } else {
        unit_touches(u.drop_last()) + op_touches(u.last())
    }
}

/// The ids the operations of a unit modify, operation by operation.
pub open spec fn unit_modifies(u: Seq<IdentOpModel>) -> Seq<Seq<char>>
    decreases u.len(),
{
    if u.len() == 0 {
        Seq::empty()
    } else {
        unit_modifies(u.drop_last()) + op_modifies(u.last())
    }
}

/// The ids the operations of a unit create, operation by operation.
pub open spec fn unit_creates(u: Seq<IdentOpModel>) -> Seq<Seq<char>>
    decreases u.len(),
{
    if u.len() == 0 {
        Seq::empty()
    } else {
        unit_creates(u.drop_last()) + op_creates(u.last())
    }
}

/// Two units are independent when no id that one touches is touched by the other.
pub open spec fn spec_independent(u: Seq<IdentOpModel>, v: Seq<IdentOpModel>) -> bool {
    forall|i: int| 0 <= i < unit_touches(u).len() ==> !unit_touches(v).contains(#[trigger] unit_touches(u)[i])
}

/// `b` depends on `a` when `b` touches an id that `a` creates.
pub open spec fn spec_depends_on(b: Seq<IdentOpModel>, a: Seq<IdentOpModel>) -> bool {
    exists|i: int| 0 <= i < unit_touches(b).len() && unit_creates(a).contains(#[trigger] unit_touches(b)[i])
}

/// An order of units respects their dependencies: no unit depends on a later one.
pub open spec fn spec_schedule_ok(units: Seq<Seq<IdentOpModel>>) -> bool {
    forall|i: int, j: int| 0 <= i < j < units.len() ==> !spec_depends_on(units[i], units[j])
}

fn push_all<'a>(out: &mut Vec<&'a str>, v: Vec<&'a str>)
    ensures
        strs_view(final(out)@) == strs_view(old(out)@) + strs_view(v@),
{
    let ghost o0 = out@;
    let mut v = v;
    let ghost v0 = v@;
    out.append(&mut v);
    assert(strs_view(out@) =~= strs_view(o0) + strs_view(v0));
}

/// The ids the operations of a unit touch.
pub fn touches<'a>(u: &'a [IdentOp]) -> (r: Vec<&'a str>)
    ensures
        strs_view(r@) == unit_touches(ops_view(u@)),
{
    let ghost ops = ops_view(u@);
    let mut r: Vec<&str> = Vec::new();
    let mut i: usize = 0;
    while i < u.len()
        invariant
            i <= u.len(),
            ops == ops_view(u@),
            strs_view(r@) == unit_touches(ops.take(i as int)),
        decreases u.len() - i,
    {
        assert(ops.take(i + 1).drop_last() == ops.take(i as int));
        let t = u[i].touches();
        push_all(&mut r, t);
        i = i + 1;
    }
    assert(ops.take(u.len() as int) == ops);
    r
}

/// The ids the operations of a unit create.
pub fn creates<'a>(u: &'a [IdentOp]) -> (r: Vec<&'a str>)
    ensures
        strs_view(r@) == unit_creates(ops_view(u@)),
{
    let ghost ops = ops_view(u@);
    let mut r: Vec<&str> = Vec::new();
    let mut i: usize = 0;
    while i < u.len()
        invariant
            i <= u.len(),
            ops == ops_view(u@),
            strs_view(r@) == unit_creates(ops.take(i as int)),
        decreases u.len() - i,
    {
        assert(ops.take(i + 1).drop_last() == ops.take(i as int));
        let t = u[i].creates();
        push_all(&mut r, t);
        i = i + 1;
    }
    assert(ops.take(u.len() as int) == ops);
    r
}

/// The ids the operations of a unit modify.
fn modifies<'a>(u: &'a [IdentOp]) -> (r: Vec<&'a str>)
    ensures
        strs_view(r@) == unit_modifies(ops_view(u@)),
{
    let ghost ops = ops_view(u@);
    let mut r: Vec<&str> = Vec::new();
    let mut i: usize = 0;
    while i < u.len()
        invariant
            i <= u.len(),
            ops == ops_view(u@),
            strs_view(r@) == unit_modifies(ops.take(i as int)),
        decreases u.len() - i,
    {
        assert(ops.take(i + 1).drop_last() == ops.take(i as int));
        let t = u[i].modifies();
        push_all(&mut r, t);
        i = i + 1;
    }
    assert(ops.take(u.len() as int) == ops);
    r
}

/// Whether `x` is one of `v`.
fn contains_str(v: &Vec<&str>, x: &str) -> (r: bool)
    ensures
        r == strs_view(v@).contains(x@),
{
    let mut i: usize = 0;
    while i < v.len()
        invariant
            i <= v.len(),
            forall|k: int| 0 <= k < i ==> strs_view(v@)[k] != x@,
        decreases v.len() - i,
    {
        if str_eq(v[i], x) {
            assert(strs_view(v@)[i as int] == x@);
            return true;
        }
        i = i + 1;
    }
    false
}

/// Independent units: no id that `u` touches is touched by `v`.
pub fn independent_units(u: &[IdentOp], v: &[IdentOp]) -> (r: bool)
    ensures
        r == spec_independent(ops_view(u@), ops_view(v@)),
{
    let tv = touches(v);
    let tu = touches(u);
    let mut i: usize = 0;
    while i < tu.len()
        invariant
            i <= tu.len(),
            strs_view(tv@) == unit_touches(ops_view(v@)),
            strs_view(tu@) == unit_touches(ops_view(u@)),
            forall|k: int| 0 <= k < i ==> !unit_touches(ops_view(v@)).contains(#[trigger] unit_touches(ops_view(u@))[k]),
        decreases tu.len() - i,
    {
        if contains_str(&tv, tu[i]) {
            assert(unit_touches(ops_view(v@)).contains(unit_touches(ops_view(u@))[i as int]));
            return false;
        }
        i = i + 1;
    }
    true
}

/// `b` depends on `a`: `b` touches an id that `a` created.
pub fn depends_on(b: &[IdentOp], a: &[IdentOp]) -> (r: bool)
    ensures
        r == spec_depends_on(ops_view(b@), ops_view(a@)),
{
    let ca = creates(a);
    let tb = touches(b);
    let mut i: usize = 0;
    while i < tb.len()
        invariant
            i <= tb.len(),
            strs_view(ca@) == unit_creates(ops_view(a@)),
            strs_view(tb@) == unit_touches(ops_view(b@)),
            forall|k: int| 0 <= k < i ==> !unit_creates(ops_view(a@)).contains(#[trigger] unit_touches(ops_view(b@))[k]),
        decreases tb.len() - i,
    {
        if contains_str(&ca, tb[i]) {
            assert(unit_creates(ops_view(a@)).contains(unit_touches(ops_view(b@))[i as int]));
            return true;
        }
        i = i + 1;
    }
    false
}

/// The values of a sequence of units.
pub open spec fn units_view(units: Seq<&[IdentOp]>) -> Seq<Seq<IdentOpModel>> {
    units.map_values(|u: &[IdentOp]| ops_view(u@))
}

/// The order of enforcement is a linear extension of the dependencies: no unit depends on
/// one that comes after it.
pub fn schedule_ok(units: &[&[IdentOp]]) -> (r: bool)
    ensures
        r == spec_schedule_ok(units_view(units@)),
{
    let ghost us = units_view(units@);
    let mut i: usize = 0;
    while i < units.len()
        invariant
            i <= units.len(),
            us == units_view(units@),
            forall|a: int, b: int| 0 <= a < i && a < b < us.len() ==> !spec_depends_on(us[a], us[b]),
        decreases units.len() - i,
    {
        let mut j: usize = i + 1;
        while j < units.len()
            invariant
                i < units.len(),
                i + 1 <= j <= units.len(),
                us == units_view(units@),
                forall|a: int, b: int| 0 <= a < i && a < b < us.len() ==> !spec_depends_on(us[a], us[b]),
                forall|b: int| i < b < j ==> !spec_depends_on(us[i as int], us[b]),
            decreases units.len() - j,
        {
            if depends_on(units[i], units[j]) {
                assert(us[i as int] == ops_view(units@[i as int]@));
                assert(us[j as int] == ops_view(units@[j as int]@));
                assert(spec_depends_on(us[i as int], us[j as int]));
                return false;
            }
            j = j + 1;
        }
        i = i + 1;
    }
    true
}


/// The pairs of texts of a vector of string pairs.
pub open spec fn id_pairs_view(v: Seq<(String, String)>) -> Seq<(Seq<char>, Seq<char>)> {
    v.map_values(|p: (String, String)| (p.0@, p.1@))
}

/// The correspondence of the ids the amendment produced with the official ids: the
/// operations are applied to `base`; when the result renders as `egov_after` does, the ids
/// are paired in document order; otherwise (or when an operation fails) there is none.
pub open spec fn spec_id_map(
    base: Seq<NodeModel>,
    ops: Seq<IdentOpModel>,
    egov_after: Seq<NodeModel>,
) -> Option<Seq<(Seq<char>, Seq<char>)>> {
    match spec_apply_unit(base, ops) {
        None => None,
        Some(got) => if spec_render(got) != spec_render(egov_after) {
            None
        } else {
            Some(Seq::new(got.len(), |i: int| (got[i].id, egov_after[i].id)))
        },
    }
}

fn same_render(a: &Vec<(String, String)>, b: &Vec<(String, String)>) -> (r: bool)
    ensures
        r == (pairs_view(a@) == pairs_view(b@)),
{
    if a.len() != b.len() {
        assert(pairs_view(a@).len() != pairs_view(b@).len());
        return false;
    }
    let mut i: usize = 0;
    while i < a.len()
        invariant
            i <= a.len() == b.len(),
            forall|k: int| 0 <= k < i ==> pairs_view(a@)[k] == pairs_view(b@)[k],
        decreases a.len() - i,
    {
        if !str_eq(a[i].0.as_str(), b[i].0.as_str()) || !str_eq(a[i].1.as_str(), b[i].1.as_str()) {
            assert(pairs_view(a@)[i as int] != pairs_view(b@)[i as int]);
            return false;
        }
        i = i + 1;
    }
    assert(pairs_view(a@) =~= pairs_view(b@));
    true
}

/// The ids of the revision that the amendment produced, paired in document order with
/// those of the official revision after it (`egov_after`); `None` when an operation fails
/// or the result does not render as the official revision does.
pub fn id_map(base: &IdentRevision, ops: &[IdentOp], egov_after: &IdentRevision) -> (r: Option<Vec<(String, String)>>)
    ensures
        match r {
            Some(v) => spec_id_map(base@, ops_view(ops@), egov_after@) == Some(id_pairs_view(v@)),
            None => spec_id_map(base@, ops_view(ops@), egov_after@) is None,
        },
{
    let got = match apply_unit(base, ops) {
        Some(g) => g,
        None => return None,
    };
    let rg = got.render();
    let re = egov_after.render();
    if !same_render(&rg, &re) {
        return None;
    }
    assert(got@.len() == egov_after@.len()) by {
        assert(spec_render(got@).len() == spec_render(egov_after@).len());
    }
    let mut out: Vec<(String, String)> = Vec::new();
    let mut i: usize = 0;
    while i < got.nodes.len()
        invariant
            i <= got.nodes.len() == egov_after.nodes.len(),
            id_pairs_view(out@) == Seq::new(i as nat, |k: int| (got@[k].id, egov_after@[k].id)),
        decreases got.nodes.len() - i,
    {
        let p = (got.nodes[i].id.clone(), egov_after.nodes[i].id.clone());
        let ghost o0 = out@;
        out.push(p);
        assert(out@ == o0.push(p));
        assert(id_pairs_view(o0.push(p)) =~= id_pairs_view(o0).push((p.0@, p.1@)));
        assert(got@[i as int].id == got.nodes@[i as int].id@);
        assert(egov_after@[i as int].id == egov_after.nodes@[i as int].id@);
        assert(id_pairs_view(out@) =~= Seq::new((i + 1) as nat, |k: int| (got@[k].id, egov_after@[k].id)));
        i = i + 1;
    }
    Some(out)
}

/// The official id of `t`: the partner of its first pair, or `t` itself when it has none.
pub open spec fn map_lookup(m: Seq<(Seq<char>, Seq<char>)>, t: Seq<char>) -> Seq<char>
    decreases m.len(),
{
    if m.len() == 0 {
        t
    } else if m[0].0 == t {
        m[0].1
    } else {
        map_lookup(m.drop_first(), t)
    }
}

/// Consecutive repeats removed.
pub open spec fn dedup(s: Seq<Seq<char>>) -> Seq<Seq<char>>
    decreases s.len(),
{
    if s.len() == 0 {
        Seq::empty()
    } else {
        let d = dedup(s.drop_last());
        if d.len() > 0 && d.last() == s.last() {
            d
        } else {
            d.push(s.last())
        }
    }
}

/// The official ids of `ids`, consecutive repeats removed.
pub open spec fn spec_to_egov_ids(m: Seq<(Seq<char>, Seq<char>)>, ids: Seq<Seq<char>>) -> Seq<Seq<char>> {
    dedup(ids.map_values(|t: Seq<char>| map_lookup(m, t)))
}

fn lookup(map: &[(String, String)], t: &str) -> (r: String)
    ensures
        r@ == map_lookup(id_pairs_view(map@), t@),
{
    let ghost m = id_pairs_view(map@);
    assert(m.skip(0) =~= m);
    let mut i: usize = 0;
    while i < map.len()
        invariant
            i <= map.len(),
            m == id_pairs_view(map@),
            map_lookup(m, t@) == map_lookup(m.skip(i as int), t@),
        decreases map.len() - i,
    {
        assert(m.skip(i as int)[0] == (map@[i as int].0@, map@[i as int].1@));
        if str_eq(map[i].0.as_str(), t) {
            return map[i].1.clone();
        }
        assert(m.skip(i as int).drop_first() == m.skip(i + 1));
        i = i + 1;
    }
    let mut r = String::new();
    crate::text::push_str(&mut r, t);
    r
}

fn to_egov_ids(map: &[(String, String)], ids: Vec<&str>) -> (r: Vec<String>)
    ensures
        strings_view(r@) == spec_to_egov_ids(id_pairs_view(map@), strs_view(ids@)),
{
    let ghost m = id_pairs_view(map@);
    let ghost looked = strs_view(ids@).map_values(|t: Seq<char>| map_lookup(m, t));
    let mut out: Vec<String> = Vec::new();
    let mut i: usize = 0;
    while i < ids.len()
        invariant
            i <= ids.len(),
            m == id_pairs_view(map@),
            looked == strs_view(ids@).map_values(|t: Seq<char>| map_lookup(m, t)),
            strings_view(out@) == dedup(looked.take(i as int)),
        decreases ids.len() - i,
    {
        let e = lookup(map, ids[i]);
        assert(looked.take(i + 1).drop_last() == looked.take(i as int));
        assert(looked.take(i + 1).last() == e@);
        let n = out.len();
        let dup = n > 0 && str_eq(out[n - 1].as_str(), e.as_str());
        if !dup {
            let ghost o0 = out@;
            out.push(e);
            proof {
                lemma_strings_view_push(o0, e);
            }
        }
        i = i + 1;
    }
    assert(looked.take(ids.len() as int) == looked);
    out
}

/// The paragraphs the amendment touched (anchors included), by their official ids in the
/// revision after it (a removed paragraph keeps its id from before); `None` as `id_map`.
pub fn touched_egov_ids(base: &IdentRevision, ops: &[IdentOp], egov_after: &IdentRevision) -> (r: Option<Vec<String>>)
    ensures
        match r {
            Some(v) => exists|m: Seq<(Seq<char>, Seq<char>)>|
                spec_id_map(base@, ops_view(ops@), egov_after@) == Some(m)
                && strings_view(v@) == spec_to_egov_ids(m, unit_touches(ops_view(ops@))),
            None => spec_id_map(base@, ops_view(ops@), egov_after@) is None,
        },
{
    let map = match id_map(base, ops, egov_after) {
        Some(m) => m,
        None => return None,
    };
    let t = touches(ops);
    Some(to_egov_ids(map.as_slice(), t))
}

/// The paragraphs whose text the amendment changed, created or removed (anchors, which only
/// locate, are left out), by their official ids; `None` as `id_map`.
pub fn modified_egov_ids(base: &IdentRevision, ops: &[IdentOp], egov_after: &IdentRevision) -> (r: Option<Vec<String>>)
    ensures
        match r {
            Some(v) => exists|m: Seq<(Seq<char>, Seq<char>)>|
                spec_id_map(base@, ops_view(ops@), egov_after@) == Some(m)
                && strings_view(v@) == spec_to_egov_ids(m, unit_modifies(ops_view(ops@))),
            None => spec_id_map(base@, ops_view(ops@), egov_after@) is None,
        },
{
    let map = match id_map(base, ops, egov_after) {
        Some(m) => m,
        None => return None,
    };
    let t = modifies(ops);
    Some(to_egov_ids(map.as_slice(), t))
}

} // verus!
