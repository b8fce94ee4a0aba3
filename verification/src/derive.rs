//! The difference of two revisions (as drafted, as enforced) written as operations on the
//! ids of the drafted one: a prior amendment whose instructions are not at hand is brought
//! into the same world of ids.
//!
//! Paragraphs are paired article by article: first those with the same text, then those
//! with a similar text (keeping the order), then those with the same text in another
//! article. A paired paragraph whose text differs is replaced, one whose article differs is
//! renumbered, an unpaired new paragraph is inserted after the one before it, and an
//! unpaired old one is deleted.

use vstd::prelude::*;
use crate::ident::{IdentOp, IdentOpModel, IdentRevision, Node, NodeModel, nodes_view, ops_view};
use crate::numeral::{push_decimal, spec_decimal};
use crate::text::{chars_of, push_str, push_string, str_eq};

verus! {

/// The pairs of neighbouring characters of a text.
pub open spec fn bigrams(s: Seq<char>) -> Seq<(char, char)> {
    if s.len() < 2 {
        Seq::empty()
    } else {
        Seq::new((s.len() - 1) as nat, |i: int| (s[i], s[i + 1]))
    }
}

/// The first place of `x` in `s` from `j` on, or `s.len()`.
pub open spec fn first_index(s: Seq<(char, char)>, x: (char, char), j: int) -> int
    decreases s.len() - j,
{
    if j < 0 || j >= s.len() {
        s.len() as int
    } else if s[j] == x {
        j
    } else {
        first_index(s, x, j + 1)
    }
}

pub proof fn lemma_first_index(s: Seq<(char, char)>, x: (char, char), j: int)
    requires
        0 <= j <= s.len(),
    ensures
        j <= first_index(s, x, j) <= s.len(),
        first_index(s, x, j) < s.len() ==> s[first_index(s, x, j)] == x,
        first_index(s, x, j) == s.len() ==> forall|k: int| j <= k < s.len() ==> s[k] != x,
    decreases s.len() - j,
{
    if j < s.len() && s[j] != x {
        lemma_first_index(s, x, j + 1);
    }
}

/// The number of pairs of `b` that can be matched with distinct pairs of `rest`, each pair of
/// `b` in turn taking the first unmatched equal pair.
pub open spec fn common_pairs(rest: Seq<(char, char)>, b: Seq<(char, char)>) -> nat
    decreases b.len(),
{
    if b.len() == 0 {
        0
    } else {
        let i = first_index(rest, b[0], 0);
        if i < rest.len() {
            1 + common_pairs(rest.remove(i), b.drop_first())
        } else {
            common_pairs(rest, b.drop_first())
        }
    }
}

/// The similarity of two texts as a fraction `(numerator, denominator)`: twice the number of
/// common pairs of neighbouring characters over the number of pairs of both; for a text too
/// short to have a pair, 1 when the texts are equal and 0 otherwise.
pub open spec fn similarity(a: Seq<char>, b: Seq<char>) -> (int, int) {
    let ga = bigrams(a);
    let gb = bigrams(b);
    if ga.len() == 0 || gb.len() == 0 {
        (if a == b { 1int } else { 0int }, 1int)
    } else {
        ((2 * common_pairs(ga, gb)) as int, (ga.len() + gb.len()) as int)
    }
}

/// The similarity is at least 0.6.
pub open spec fn similar(a: Seq<char>, b: Seq<char>) -> bool {
    5 * similarity(a, b).0 >= 3 * similarity(a, b).1
}

/// `x` is at most as similar to `t` as `y` is.
pub open spec fn sim_le(x: Seq<char>, y: Seq<char>, t: Seq<char>) -> bool {
    similarity(x, t).0 * similarity(y, t).1 <= similarity(y, t).0 * similarity(x, t).1
}

/// The pairing: for each enforced paragraph its drafted partner, and which drafted
/// paragraphs are taken.
pub type Pairing = (Seq<Option<usize>>, Seq<bool>);

/// No pairs yet.
pub open spec fn no_pairs(n_e: nat, n_d: nat) -> Pairing {
    (Seq::new(n_e, |i: int| None), Seq::new(n_d, |i: int| false))
}

/// Pairs the enforced paragraph `ei` with the drafted paragraph `di`.
pub open spec fn pair(p: Pairing, ei: int, di: int) -> Pairing {
    (p.0.update(ei, Some(di as usize)), p.1.update(di, true))
}

/// The first drafted paragraph from `j` on, not taken, with the text of `en` (and, when
/// `same_art`, its article).
pub open spec fn text_partner(d: Seq<NodeModel>, used: Seq<bool>, en: NodeModel, same_art: bool, j: int) -> Option<usize>
    decreases d.len() - j,
{
    if j < 0 || j >= d.len() {
        None
    } else if !used[j] && (!same_art || d[j].art == en.art) && d[j].text == en.text {
        Some(j as usize)
    } else {
        text_partner(d, used, en, same_art, j + 1)
    }
}

/// Pairs the enforced paragraphs before `k`, that have no partner yet, with drafted
/// paragraphs of the same text.
pub open spec fn pass_same(d: Seq<NodeModel>, e: Seq<NodeModel>, same_art: bool, p0: Pairing, k: int) -> Pairing
    decreases k,
{
    if k <= 0 {
        p0
    } else {
        let p = pass_same(d, e, same_art, p0, k - 1);
        if p.0[k - 1] is Some {
            p
        } else {
            match text_partner(d, p.1, e[k - 1], same_art, 0) {
                Some(di) => pair(p, k - 1, di as int),
                None => p,
            }
        }
    }
}

/// Just after the partner of the last enforced paragraph before `k` that has one (0 when none).
pub open spec fn lo_bound(m: Seq<Option<usize>>, k: int) -> int
    decreases k,
{
    if k <= 0 {
        0
    } else {
        match m[k - 1] {
            Some(x) => x + 1,
            None => lo_bound(m, k - 1),
        }
    }
}

/// The partner of the first enforced paragraph from `k` on that has one (`n_d` when none).
pub open spec fn hi_bound(m: Seq<Option<usize>>, k: int, n_d: int) -> int
    decreases m.len() - k,
{
    if k < 0 || k >= m.len() {
        n_d
    } else {
        match m[k] {
            Some(x) => x as int,
            None => hi_bound(m, k + 1, n_d),
        }
    }
}

/// The most similar drafted paragraph in `[lo, j)`, not taken, of the article of `en` and
/// similar enough (the later of equally similar ones).
pub open spec fn best_near(d: Seq<NodeModel>, used: Seq<bool>, en: NodeModel, lo: int, j: int) -> Option<usize>
    decreases j - lo,
{
    if j <= lo {
        None
    } else {
        let b = best_near(d, used, en, lo, j - 1);
        let c = j - 1;
        if 0 <= c < d.len() && !used[c] && d[c].art == en.art && similar(d[c].text, en.text) {
            match b {
                Some(x) => if sim_le(d[x as int].text, d[c].text, en.text) {
                    Some(c as usize)
                } else {
                    b
                },
                None => Some(c as usize),
            }
        } else {
            b
        }
    }
}

/// Pairs the enforced paragraphs before `k`, that have no partner yet, with the most
/// similar drafted paragraph between the partners of their neighbours.
pub open spec fn pass_near(d: Seq<NodeModel>, e: Seq<NodeModel>, p0: Pairing, k: int) -> Pairing
    decreases k,
{
    if k <= 0 {
        p0
    } else {
        let p = pass_near(d, e, p0, k - 1);
        let ei = k - 1;
        if p.0[ei] is Some {
            p
        } else {
            match best_near(d, p.1, e[ei], lo_bound(p.0, ei), hi_bound(p.0, ei + 1, d.len() as int)) {
                Some(di) => pair(p, ei, di as int),
                None => p,
            }
        }
    }
}

/// The pairing of the enforced paragraphs with the drafted ones.
pub open spec fn pairing(d: Seq<NodeModel>, e: Seq<NodeModel>) -> Pairing {
    let p1 = pass_same(d, e, true, no_pairs(e.len(), d.len()), e.len() as int);
    let p2 = pass_near(d, e, p1, e.len() as int);
    pass_same(d, e, false, p2, e.len() as int)
}

/// The id of the `k`-th new paragraph: `{amend}/art:{art}/new:{k}`.
pub open spec fn new_id(amend: Seq<char>, art: Seq<char>, k: nat) -> Seq<char> {
    amend + "/art:"@ + art + "/new:"@ + spec_decimal(k)
}

/// The operations for the enforced paragraphs from `ei` on, after the paragraph `prev` and
/// `k` new paragraphs: a paired paragraph is replaced (when its text differs) and
/// renumbered (when its article differs); an unpaired one is inserted after the one before
/// it (and left out when there is none before it).
pub open spec fn ops_from(
    d: Seq<NodeModel>,
    e: Seq<NodeModel>,
    m: Seq<Option<usize>>,
    amend: Seq<char>,
    ei: int,
    prev: Option<Seq<char>>,
    k: nat,
) -> Seq<IdentOpModel>
    decreases e.len() - ei,
{
    if ei < 0 || ei >= e.len() {
        Seq::empty()
    } else {
        let en = e[ei];
        match m[ei] {
            Some(di) => {
                let dn = d[di as int];
                (if dn.text != en.text {
                    seq![IdentOpModel::Replace { id: dn.id, expected: dn.text, new: en.text }]
                } else {
                    Seq::empty()
                }) + (if dn.art != en.art {
                    seq![IdentOpModel::Renumber { id: dn.id, art: en.art }]
                } else {
                    Seq::empty()
                }) + ops_from(d, e, m, amend, ei + 1, Some(dn.id), k)
            },
            None => {
                let nid = new_id(amend, en.art, k + 1);
                match prev {
                    Some(p) => seq![IdentOpModel::InsertAfter { anchor: p, new_id: nid, art: en.art, text: en.text }]
                        + ops_from(d, e, m, amend, ei + 1, Some(nid), k + 1),
                    None => ops_from(d, e, m, amend, ei + 1, None, k + 1),
                }
            },
        }
    }
}

/// The deletions of the drafted paragraphs from `j` on that are not taken, in order.
pub open spec fn deletions(d: Seq<NodeModel>, used: Seq<bool>, j: int) -> Seq<IdentOpModel>
    decreases d.len() - j,
{
    if j < 0 || j >= d.len() {
        Seq::empty()
    } else {
        (if used[j] { Seq::empty() } else { seq![IdentOpModel::Delete { id: d[j].id }] })
            + deletions(d, used, j + 1)
    }
}

/// The operations that take the drafted revision to the enforced one.
pub open spec fn spec_derive_unit(d: Seq<NodeModel>, e: Seq<NodeModel>, amend: Seq<char>) -> Seq<IdentOpModel> {
    let p = pairing(d, e);
    ops_from(d, e, p.0, amend, 0, None, 0) + deletions(d, p.1, 0)
}

/// Every text is shorter than 2^40 characters.
pub open spec fn texts_fit(r: Seq<NodeModel>) -> bool {
    forall|i: int| 0 <= i < r.len() ==> (#[trigger] r[i]).text.len() < 0x100_0000_0000
}

fn bigrams_of(s: &Vec<char>) -> (r: Vec<(char, char)>)
    ensures
        r@ == bigrams(s@),
{
    let mut r: Vec<(char, char)> = Vec::new();
    if s.len() < 2 {
        return r;
    }
    let mut i: usize = 0;
    while i + 1 < s.len()
        invariant
            s.len() >= 2,
            i <= s.len() - 1,
            r@ == bigrams(s@).take(i as int),
        decreases s.len() - i,
    {
        r.push((s[i], s[i + 1]));
        assert(bigrams(s@).take(i + 1) == bigrams(s@).take(i as int).push((s@[i as int], s@[i + 1])));
        i = i + 1;
    }
    assert(bigrams(s@).take(i as int) == bigrams(s@));
    r
}

fn first_index_of(s: &Vec<(char, char)>, x: (char, char)) -> (i: usize)
    ensures
        i == first_index(s@, x, 0),
{
    let mut i: usize = 0;
    while i < s.len() && !(s[i].0 == x.0 && s[i].1 == x.1)
        invariant
            i <= s.len(),
            first_index(s@, x, i as int) == first_index(s@, x, 0),
        decreases s.len() - i,
    {
        i = i + 1;
    }
    i
}

proof fn lemma_common_pairs_bound(rest: Seq<(char, char)>, b: Seq<(char, char)>)
    ensures
        common_pairs(rest, b) <= b.len(),
    decreases b.len(),
{
    if b.len() > 0 {
        let i = first_index(rest, b[0], 0);
        if i < rest.len() {
            lemma_common_pairs_bound(rest.remove(i), b.drop_first());
        } else {
            lemma_common_pairs_bound(rest, b.drop_first());
        }
    }
}

fn common_count(a: &Vec<(char, char)>, b: &Vec<(char, char)>) -> (n: u64)
    requires
        b.len() < 0x100_0000_0000,
    ensures
        n == common_pairs(a@, b@),
{
    let mut rest = crate::text::slice_from(a.as_slice(), 0);
    assert(rest@ == a@);
    let mut n: u64 = 0;
    let mut j: usize = 0;
    proof {
        lemma_common_pairs_bound(a@, b@);
    }
    assert(b@.skip(0) == b@);
    while j < b.len()
        invariant
            j <= b.len() < 0x100_0000_0000,
            n <= j,
            n + common_pairs(rest@, b@.skip(j as int)) == common_pairs(a@, b@),
        decreases b.len() - j,
    {
        let ghost bs = b@.skip(j as int);
        assert(bs[0] == b@[j as int]);
        assert(bs.drop_first() == b@.skip(j + 1));
        let i = first_index_of(&rest, b[j]);
        proof {
            lemma_first_index(rest@, b@[j as int], 0);
        }
        if i < rest.len() {
            rest.remove(i);
            n = n + 1;
        }
        j = j + 1;
    }
    assert(b@.skip(j as int).len() == 0);
    n
}

/// The similarity of two texts as a fraction `(numerator, denominator)`.
fn similarity_of(a: &str, b: &str) -> (r: (u64, u64))
    requires
        a@.len() < 0x100_0000_0000,
        b@.len() < 0x100_0000_0000,
    ensures
        (r.0 as int, r.1 as int) == similarity(a@, b@),
        r.0 < 0x400_0000_0000,
        0 < r.1 < 0x400_0000_0000,
{
    let ac = chars_of(a);
    let bc = chars_of(b);
    let ga = bigrams_of(&ac);
    let gb = bigrams_of(&bc);
    assert(ga.len() <= ac.len() && gb.len() <= bc.len());
    if ga.len() == 0 || gb.len() == 0 {
        if str_eq(a, b) { (1, 1) } else { (0, 1) }
    } else {
        let c = common_count(&ga, &gb);
        proof {
            lemma_common_pairs_bound(ga@, gb@);
        }
        (2 * c, ga.len() as u64 + gb.len() as u64)
    }
}

/// `a ≤ b` for fractions with small positive denominators.
fn frac_le(a: (u64, u64), b: (u64, u64)) -> (r: bool)
    requires
        a.0 < 0x400_0000_0000,
        a.1 < 0x400_0000_0000,
        b.0 < 0x400_0000_0000,
        b.1 < 0x400_0000_0000,
    ensures
        r == (a.0 * b.1 <= b.0 * a.1),
{
    let x = a.0 as u128;
    let y = b.1 as u128;
    let z = b.0 as u128;
    let w = a.1 as u128;
    assert(x * y < 0x10_0000_0000_0000_0000_0000) by (nonlinear_arith)
        requires
            x < 0x400_0000_0000,
            y < 0x400_0000_0000,
    ;
    assert(z * w < 0x10_0000_0000_0000_0000_0000) by (nonlinear_arith)
        requires
            z < 0x400_0000_0000,
            w < 0x400_0000_0000,
    ;
    x * y <= z * w
}

/// Every partner is a drafted paragraph, and the pairing has the sizes of the revisions.
pub open spec fn pairing_ok(p: Pairing, n_e: nat, n_d: nat) -> bool {
    &&& p.0.len() == n_e
    &&& p.1.len() == n_d
    &&& forall|i: int| 0 <= i < n_e ==> (#[trigger] p.0[i] matches Some(x) ==> x < n_d)
}

proof fn lemma_text_partner(d: Seq<NodeModel>, used: Seq<bool>, en: NodeModel, same_art: bool, j: int)
    requires
        0 <= j,
        d.len() <= usize::MAX,
    ensures
        text_partner(d, used, en, same_art, j) matches Some(x) ==> j <= x < d.len(),
    decreases d.len() - j,
{
    if j < d.len() && !(!used[j] && (!same_art || d[j].art == en.art) && d[j].text == en.text) {
        lemma_text_partner(d, used, en, same_art, j + 1);
    }
}

fn text_partner_of(d: &Vec<Node>, used: &Vec<bool>, en: &Node, same_art: bool) -> (r: Option<usize>)
    requires
        used.len() == d.len(),
    ensures
        r == text_partner(nodes_view(d@), used@, en@, same_art, 0),
        r matches Some(x) ==> x < d.len(),
{
    proof {
        lemma_text_partner(nodes_view(d@), used@, en@, same_art, 0);
    }
    let mut j: usize = 0;
    while j < d.len()
        invariant
            j <= d.len(),
            used.len() == d.len(),
            text_partner(nodes_view(d@), used@, en@, same_art, j as int)
                == text_partner(nodes_view(d@), used@, en@, same_art, 0),
        decreases d.len() - j,
    {
        assert(nodes_view(d@)[j as int] == d@[j as int]@);
        if !used[j] && (!same_art || str_eq(d[j].art.as_str(), en.art.as_str())) && str_eq(
            d[j].text.as_str(),
            en.text.as_str(),
        ) {
            return Some(j);
        }
        j = j + 1;
    }
    None
}

/// Pairs the enforced paragraphs without partner with drafted paragraphs of the same text.
fn pass_same_exec(d: &Vec<Node>, e: &Vec<Node>, same_art: bool, m: &mut Vec<Option<usize>>, used: &mut Vec<bool>)
    requires
        pairing_ok((old(m)@, old(used)@), e.len() as nat, d.len() as nat),
    ensures
        (final(m)@, final(used)@) == pass_same(
            nodes_view(d@),
            nodes_view(e@),
            same_art,
            (old(m)@, old(used)@),
            e.len() as int,
        ),
        pairing_ok((final(m)@, final(used)@), e.len() as nat, d.len() as nat),
{
    let ghost p0 = (m@, used@);
    let mut k: usize = 0;
    while k < e.len()
        invariant
            k <= e.len(),
            pairing_ok((m@, used@), e.len() as nat, d.len() as nat),
            (m@, used@) == pass_same(nodes_view(d@), nodes_view(e@), same_art, p0, k as int),
        decreases e.len() - k,
    {
        assert(nodes_view(e@)[k as int] == e@[k as int]@);
        if m[k].is_none() {
            match text_partner_of(d, used, &e[k], same_art) {
                Some(di) => {
                    m.set(k, Some(di));
                    used.set(di, true);
                },
                None => {},
            }
        }
        k = k + 1;
    }
}

fn lo_of(m: &Vec<Option<usize>>, n_d: usize, ei: usize) -> (r: usize)
    requires
        ei <= m.len(),
        forall|i: int| 0 <= i < m.len() ==> (#[trigger] m@[i] matches Some(x) ==> x < n_d),
    ensures
        r == lo_bound(m@, ei as int),
        r <= n_d,
{
    let mut k = ei;
    while k > 0
        invariant
            k <= ei <= m.len(),
            forall|i: int| 0 <= i < m.len() ==> (#[trigger] m@[i] matches Some(x) ==> x < n_d),
            lo_bound(m@, k as int) == lo_bound(m@, ei as int),
        decreases k,
    {
        match m[k - 1] {
            Some(x) => {
                assert(m@[k - 1] matches Some(y) && y < n_d);
                return x + 1;
            },
            None => {},
        }
        k = k - 1;
    }
    0
}

fn hi_of(m: &Vec<Option<usize>>, n_d: usize, k0: usize) -> (r: usize)
    requires
        k0 <= m.len(),
        forall|i: int| 0 <= i < m.len() ==> (#[trigger] m@[i] matches Some(x) ==> x < n_d),
    ensures
        r == hi_bound(m@, k0 as int, n_d as int),
        r <= n_d,
{
    let mut k = k0;
    while k < m.len()
        invariant
            k0 <= k <= m.len(),
            forall|i: int| 0 <= i < m.len() ==> (#[trigger] m@[i] matches Some(x) ==> x < n_d),
            hi_bound(m@, k as int, n_d as int) == hi_bound(m@, k0 as int, n_d as int),
        decreases m.len() - k,
    {
        match m[k] {
            Some(x) => {
                assert(m@[k as int] matches Some(y) && y < n_d);
                return x;
            },
            None => {},
        }
        k = k + 1;
    }
    n_d
}

fn best_near_of(d: &Vec<Node>, used: &Vec<bool>, en: &Node, lo: usize, hi: usize) -> (r: Option<usize>)
    requires
        used.len() == d.len(),
        hi <= d.len(),
        texts_fit(nodes_view(d@)),
        en.text@.len() < 0x100_0000_0000,
    ensures
        r == best_near(nodes_view(d@), used@, en@, lo as int, hi as int),
        r matches Some(x) ==> lo <= x < hi,
{
    if hi <= lo {
        return None;
    }
    let ghost dv = nodes_view(d@);
    let mut b: Option<usize> = None;
    let mut bs: (u64, u64) = (0, 1);
    let mut j = lo;
    while j < hi
        invariant
            lo <= j <= hi <= d.len(),
            used.len() == d.len(),
            dv == nodes_view(d@),
            texts_fit(dv),
            en.text@.len() < 0x100_0000_0000,
            b == best_near(dv, used@, en@, lo as int, j as int),
            b matches Some(x) ==> lo <= x < j && (bs.0 as int, bs.1 as int) == similarity(dv[x as int].text, en.text@),
            bs.0 < 0x400_0000_0000,
            0 < bs.1 < 0x400_0000_0000,
        decreases hi - j,
    {
        assert(dv[j as int] == d@[j as int]@);
        assert(dv[j as int].text.len() < 0x100_0000_0000);
        if !used[j] && str_eq(d[j].art.as_str(), en.art.as_str()) {
            let s = similarity_of(d[j].text.as_str(), en.text.as_str());
            if 5 * s.0 >= 3 * s.1 {
                match b {
                    Some(x) => {
                        if frac_le(bs, s) {
                            b = Some(j);
                            bs = s;
                        }
                    },
                    None => {
                        b = Some(j);
                        bs = s;
                    },
                }
            }
        }
        j = j + 1;
    }
    b
}

/// Pairs the enforced paragraphs without partner with the most similar drafted paragraph
/// between the partners of their neighbours.
fn pass_near_exec(d: &Vec<Node>, e: &Vec<Node>, m: &mut Vec<Option<usize>>, used: &mut Vec<bool>)
    requires
        pairing_ok((old(m)@, old(used)@), e.len() as nat, d.len() as nat),
        texts_fit(nodes_view(d@)),
        texts_fit(nodes_view(e@)),
    ensures
        (final(m)@, final(used)@) == pass_near(nodes_view(d@), nodes_view(e@), (old(m)@, old(used)@), e.len() as int),
        pairing_ok((final(m)@, final(used)@), e.len() as nat, d.len() as nat),
{
    let ghost p0 = (m@, used@);
    let mut k: usize = 0;
    while k < e.len()
        invariant
            k <= e.len(),
            texts_fit(nodes_view(d@)),
            texts_fit(nodes_view(e@)),
            pairing_ok((m@, used@), e.len() as nat, d.len() as nat),
            (m@, used@) == pass_near(nodes_view(d@), nodes_view(e@), p0, k as int),
        decreases e.len() - k,
    {
        assert(nodes_view(e@)[k as int] == e@[k as int]@);
        assert(e@[k as int]@.text.len() < 0x100_0000_0000);
        if m[k].is_none() {
            let lo = lo_of(m, d.len(), k);
            let hi = hi_of(m, d.len(), k + 1);
            match best_near_of(d, used, &e[k], lo, hi) {
                Some(di) => {
                    m.set(k, Some(di));
                    used.set(di, true);
                },
                None => {},
            }
        }
        k = k + 1;
    }
}

/// The id of the `k`-th new paragraph.
fn new_id_of(amend: &str, art: &String, k: u32) -> (r: String)
    ensures
        r@ == new_id(amend@, art@, k as nat),
{
    let mut r = String::new();
    push_str(&mut r, amend);
    push_str(&mut r, "/art:");
    push_string(&mut r, art);
    push_str(&mut r, "/new:");
    push_decimal(&mut r, k as u64);
    r
}

/// The text of an optional string.
pub open spec fn opt_text(s: Option<String>) -> Option<Seq<char>> {
    match s {
        Some(x) => Some(x@),
        None => None,
    }
}

proof fn lemma_ops_push(a: Seq<IdentOp>, x: IdentOp)
    ensures
        ops_view(a.push(x)) == ops_view(a).push(x@),
{
    assert(ops_view(a.push(x)) =~= ops_view(a).push(x@));
}

/// Derives the operations that take `draft` to `enf` (see the module documentation). The
/// similarity of two texts is compared as an exact fraction.
pub fn derive_unit(draft: &IdentRevision, enf: &IdentRevision, amend_id: &str) -> (ops: Vec<IdentOp>)
    requires
        enf.nodes.len() < u32::MAX,
        texts_fit(draft@),
        texts_fit(enf@),
    ensures
        ops_view(ops@) == spec_derive_unit(draft@, enf@, amend_id@),
{
    let d = &draft.nodes;
    let e = &enf.nodes;
    let ghost dv = draft@;
    let ghost ev = enf@;
    let mut m: Vec<Option<usize>> = Vec::new();
    let mut i: usize = 0;
    while i < e.len()
        invariant
            i <= e.len(),
            m@ == Seq::new(i as nat, |j: int| None::<usize>),
        decreases e.len() - i,
    {
        m.push(None);
        assert(m@ =~= Seq::new((i + 1) as nat, |j: int| None::<usize>));
        i = i + 1;
    }
    let mut used: Vec<bool> = Vec::new();
    let mut i: usize = 0;
    while i < d.len()
        invariant
            i <= d.len(),
            used@ == Seq::new(i as nat, |j: int| false),
        decreases d.len() - i,
    {
        used.push(false);
        assert(used@ =~= Seq::new((i + 1) as nat, |j: int| false));
        i = i + 1;
    }
    assert((m@, used@) == no_pairs(ev.len(), dv.len()));
    pass_same_exec(d, e, true, &mut m, &mut used);
    pass_near_exec(d, e, &mut m, &mut used);
    pass_same_exec(d, e, false, &mut m, &mut used);
    assert((m@, used@) == pairing(dv, ev));
    let ghost mv = m@;
    let mut ops: Vec<IdentOp> = Vec::new();
    let mut prev: Option<String> = None;
    let mut k: u32 = 0;
    let mut ei: usize = 0;
    while ei < e.len()
        invariant
            ei <= e.len() < u32::MAX,
            k <= ei,
            dv == nodes_view(d@),
            ev == nodes_view(e@),
            m@ == mv,
            pairing_ok((m@, used@), e.len() as nat, d.len() as nat),
            ops_view(ops@) + ops_from(dv, ev, mv, amend_id@, ei as int, opt_text(prev), k as nat)
                == ops_from(dv, ev, mv, amend_id@, 0, None, 0),
        decreases e.len() - ei,
    {
        let ghost before = ops_view(ops@);
        let ghost rest = ops_from(dv, ev, mv, amend_id@, ei + 1, opt_text(prev), k as nat);
        assert(ev[ei as int] == e@[ei as int]@);
        let en = &e[ei];
        match m[ei] {
            Some(di) => {
                assert(mv[ei as int] matches Some(x) && x < d.len());
                assert(dv[di as int] == d@[di as int]@);
                let dn = &d[di];
                let ghost rest2 = ops_from(dv, ev, mv, amend_id@, ei + 1, Some(dn.id@), k as nat);
                let ghost step = (if dn.text@ != en.text@ {
                    seq![IdentOpModel::Replace { id: dn.id@, expected: dn.text@, new: en.text@ }]
                } else {
                    Seq::empty()
                }) + (if dn.art@ != en.art@ {
                    seq![IdentOpModel::Renumber { id: dn.id@, art: en.art@ }]
                } else {
                    Seq::empty()
                });
                assert(ops_from(dv, ev, mv, amend_id@, ei as int, opt_text(prev), k as nat) == step + rest2);
                if !str_eq(dn.text.as_str(), en.text.as_str()) {
                    let op = IdentOp::Replace { id: dn.id.clone(), expected: dn.text.clone(), new: en.text.clone() };
                    proof {
                        lemma_ops_push(ops@, op);
                    }
                    ops.push(op);
                }
                if !str_eq(dn.art.as_str(), en.art.as_str()) {
                    let op = IdentOp::Renumber { id: dn.id.clone(), art: en.art.clone() };
                    proof {
                        lemma_ops_push(ops@, op);
                    }
                    ops.push(op);
                }
                assert(ops_view(ops@) == before + step);
                prev = Some(dn.id.clone());
                assert(ops_view(ops@) + rest2 == before + (step + rest2));
            },
            None => {
                k = k + 1;
                let nid = new_id_of(amend_id, &en.art, k);
                let anchor = match &prev {
                    Some(p) => Some(p.clone()),
                    None => None,
                };
                match anchor {
                    Some(a) => {
                        let ghost rest2 = ops_from(dv, ev, mv, amend_id@, ei + 1, Some(nid@), k as nat);
                        let op = IdentOp::InsertAfter { anchor: a, new_id: nid.clone(), art: en.art.clone(), text: en.text.clone() };
                        proof {
                            lemma_ops_push(ops@, op);
                        }
                        ops.push(op);
                        assert(ops_from(dv, ev, mv, amend_id@, ei as int, Some(a@), (k - 1) as nat) == seq![op@] + rest2);
                        assert(ops_view(ops@) + rest2 == before + (seq![op@] + rest2));
                        prev = Some(nid);
                    },
                    None => {},
                }
            },
        }
        ei = ei + 1;
    }
    let ghost opsv = ops_view(ops@);
    assert(opsv == ops_from(dv, ev, mv, amend_id@, 0, None, 0));
    let mut j: usize = 0;
    assert(opsv + deletions(dv, used@, 0) == opsv + deletions(dv, used@, j as int));
    while j < d.len()
        invariant
            j <= d.len(),
            dv == nodes_view(d@),
            used.len() == d.len(),
            ops_view(ops@) + deletions(dv, used@, j as int) == opsv + deletions(dv, used@, 0),
        decreases d.len() - j,
    {
        let ghost before = ops_view(ops@);
        assert(dv[j as int] == d@[j as int]@);
        if !used[j] {
            let op = IdentOp::Delete { id: d[j].id.clone() };
            proof {
                lemma_ops_push(ops@, op);
            }
            ops.push(op);
            assert(ops_view(ops@) + deletions(dv, used@, j + 1) == before + deletions(dv, used@, j as int));
        } else {
            assert(deletions(dv, used@, j as int) == deletions(dv, used@, j + 1));
        }
        j = j + 1;
    }
    assert(deletions(dv, used@, j as int) == Seq::<IdentOpModel>::empty());
    assert(ops_view(ops@) == opsv + deletions(dv, used@, 0));
    ops
}

} // verus!
