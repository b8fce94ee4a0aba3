//! Article numbers (`第十二条の二`, `第三条から第五条まで`) and the check that the
//! articles of a statute follow each other in numbering order.
//!
//! The rules for "the next number" (branch numbers of legislative drafting):
//! - after Article N come Article N+1 or Article N-2 (a branch starts one level deeper at 2);
//! - after Article N-M come N-(M+1), N-M-2 (deeper again), or, back up, Article N+1;
//! - a range "Articles N to M: deleted" occupies N to M.

use vstd::prelude::*;
use crate::numeral::{
    all_ascii_digits, decimal_u32, decimal_value, is_ascii_digit, is_u32_field, lemma_decimal_roundtrip,
    push_decimal, spec_decimal, spec_to_kanji, to_kanji,
};
use crate::text::{
    chars_of, lacks, lemma_split_on_concat, lemma_split_on_lacking, lemma_split_on_nonempty, str_eq, push_char, push_str, push_string, seqs_of, split_chars, split_on,
    string_of,
};

verus! {

/// An article number as statutes write it.
#[derive(Debug, PartialEq, Eq)]
pub enum ArticleNum {
    /// `第十二条の二` is base 12, branch `[2]`.
    Single { base: u32, branch: Vec<u32> },
    /// `第三条から第五条まで`.
    Range { from: Box<ArticleNum>, to: Box<ArticleNum> },
    /// A number that is neither of the above, kept as written.
    Other(String),
}

/// The mathematical value of an [`ArticleNum`].
pub enum ArticleNumModel {
    Single { base: nat, branch: Seq<nat> },
    Range { from: Box<ArticleNumModel>, to: Box<ArticleNumModel> },
    Other(Seq<char>),
}

/// The branch numbers as naturals.
pub open spec fn branch_model(b: Seq<u32>) -> Seq<nat> {
    b.map_values(|x: u32| x as nat)
}

pub open spec fn article_model(n: ArticleNum) -> ArticleNumModel
    decreases n,
{
    match n {
        ArticleNum::Single { base, branch } => ArticleNumModel::Single {
            base: base as nat,
            branch: branch_model(branch@),
        },
        ArticleNum::Range { from, to } => ArticleNumModel::Range {
            from: Box::new(article_model(*from)),
            to: Box::new(article_model(*to)),
        },
        ArticleNum::Other(s) => ArticleNumModel::Other(s@),
    }
}

impl View for ArticleNum {
    type V = ArticleNumModel;

    open spec fn view(&self) -> ArticleNumModel {
        article_model(*self)
    }
}

impl ArticleNum {
    /// A copy of the number.
    pub fn copy(&self) -> (r: ArticleNum)
        ensures
            r@ == self@,
        decreases self,
    {
        match self {
            ArticleNum::Single { base, branch } => ArticleNum::Single { base: *base, branch: branch.clone() },
            ArticleNum::Range { from, to } => ArticleNum::Range {
                from: Box::new(from.copy()),
                to: Box::new(to.copy()),
            },
            ArticleNum::Other(s) => ArticleNum::Other(s.clone()),
        }
    }
}

/// `の二の三` for the branch `[2, 3]`.
pub open spec fn branch_label(b: Seq<nat>) -> Seq<char>
    decreases b.len(),
{
    if b.len() == 0 {
        Seq::empty()
    } else {
        branch_label(b.drop_last()) + seq!['の'] + spec_to_kanji(b.last())
    }
}

/// `第十二条の二`.
pub open spec fn single_label(base: nat, branch: Seq<nat>) -> Seq<char> {
    seq!['第'] + spec_to_kanji(base) + seq!['条'] + branch_label(branch)
}

/// The label of an article number: `第十二条の二`, `第三条から第五条まで`, or the text of
/// a number of another form.
pub open spec fn spec_label(n: ArticleNumModel) -> Seq<char>
    decreases n,
{
    match n {
        ArticleNumModel::Single { base, branch } => single_label(base, branch),
        ArticleNumModel::Range { from, to } => spec_label(*from) + seq!['か', 'ら'] + spec_label(*to)
            + seq!['ま', 'で'],
        ArticleNumModel::Other(s) => s,
    }
}

/// Like [`spec_label`], but a number of another form becomes `第…条` around its text.
pub open spec fn spec_article_label(n: ArticleNumModel) -> Seq<char>
    decreases n,
{
    match n {
        ArticleNumModel::Single { base, branch } => single_label(base, branch),
        ArticleNumModel::Range { from, to } => spec_article_label(*from) + seq!['か', 'ら']
            + spec_article_label(*to) + seq!['ま', 'で'],
        ArticleNumModel::Other(s) => seq!['第'] + s + seq!['条'],
    }
}

fn push_branch_label(s: &mut String, b: &Vec<u32>)
    ensures
        final(s)@ == old(s)@ + branch_label(branch_model(b@)),
{
    let mut i: usize = 0;
    while i < b.len()
        invariant
            i <= b.len(),
            s@ == old(s)@ + branch_label(branch_model(b@.take(i as int))),
        decreases b.len() - i,
    {
        let ghost before = s@;
        push_char(s, 'の');
        let k = to_kanji(b[i]);
        push_string(s, &k);
        assert(branch_model(b@.take(i + 1)).drop_last() == branch_model(b@.take(i as int)));
        assert(branch_model(b@.take(i + 1)).last() == b@[i as int] as nat);
        assert(s@ == old(s)@ + branch_label(branch_model(b@.take(i + 1))));
        i = i + 1;
    }
    assert(b@.take(b.len() as int) == b@);
}

/// `第十二条の二`; a range is `第三条から第五条まで`; a number of another form is its text.
pub fn label(n: &ArticleNum) -> (s: String)
    ensures
        s@ == spec_label(n@),
    decreases n,
{
    match n {
        ArticleNum::Single { base, branch } => {
            let mut s = String::new();
            push_char(&mut s, '第');
            let k = to_kanji(*base);
            push_string(&mut s, &k);
            push_char(&mut s, '条');
            push_branch_label(&mut s, branch);
            s
        },
        ArticleNum::Range { from, to } => {
            let mut s = label(from);
            push_char(&mut s, 'か');
            push_char(&mut s, 'ら');
            let t = label(to);
            push_string(&mut s, &t);
            push_char(&mut s, 'ま');
            push_char(&mut s, 'で');
            s
        },
        ArticleNum::Other(o) => o.clone(),
    }
}

/// `第百四十二条の四`; a range is `第三条から第五条まで`; a number of another form is
/// `第…条` around its text.
pub fn article_label(n: &ArticleNum) -> (s: String)
    ensures
        s@ == spec_article_label(n@),
    decreases n,
{
    match n {
        ArticleNum::Single { base, branch } => {
            let mut s = String::new();
            push_char(&mut s, '第');
            let k = to_kanji(*base);
            push_string(&mut s, &k);
            push_char(&mut s, '条');
            push_branch_label(&mut s, branch);
            s
        },
        ArticleNum::Range { from, to } => {
            let mut s = article_label(from);
            push_char(&mut s, 'か');
            push_char(&mut s, 'ら');
            let t = article_label(to);
            push_string(&mut s, &t);
            push_char(&mut s, 'ま');
            push_char(&mut s, 'で');
            s
        },
        ArticleNum::Other(o) => {
            let mut s = String::new();
            push_char(&mut s, '第');
            push_string(&mut s, o);
            push_char(&mut s, '条');
            s
        },
    }
}


/// The number that a preceding range ends with (a single number stands for itself).
pub open spec fn range_end(n: ArticleNumModel) -> ArticleNumModel {
    match n {
        ArticleNumModel::Range { to, .. } => *to,
        _ => n,
    }
}

/// The number that a following range starts with (a single number stands for itself).
pub open spec fn range_start(n: ArticleNumModel) -> ArticleNumModel {
    match n {
        ArticleNumModel::Range { from, .. } => *from,
        _ => n,
    }
}

/// Article `nb` with branch `nbr` may follow article `pb` with branch `pbr`: the next base
/// without branch; or the same base with a branch one level deeper that starts at 2; or the
/// same base with a branch of a level the previous one has, one more at that level.
pub open spec fn single_succeeds(pb: nat, pbr: Seq<nat>, nb: nat, nbr: Seq<nat>) -> bool {
    ||| nb == pb + 1 && nbr.len() == 0
    ||| nb == pb && nbr.len() == pbr.len() + 1 && nbr.take(pbr.len() as int) == pbr
        && nbr[pbr.len() as int] == 2
    ||| nb == pb && 1 <= nbr.len() <= pbr.len()
        && nbr.take(nbr.len() - 1) == pbr.take(nbr.len() - 1)
        && nbr.last() == pbr[nbr.len() - 1] + 1
}

/// `next` may follow `prev` in numbering order; numbers of another form are not judged
/// (they always may).
pub open spec fn spec_succeeds(prev: ArticleNumModel, next: ArticleNumModel) -> bool {
    match (range_end(prev), range_start(next)) {
        (
            ArticleNumModel::Single { base: pb, branch: pbr },
            ArticleNumModel::Single { base: nb, branch: nbr },
        ) => single_succeeds(pb, pbr, nb, nbr),
        _ => true,
    }
}

/// The next numbers: after `第N条` (with any branch) come `第N+1条`, the branch one level
/// deeper starting at `の二`, and, at every level of the branch, the number one more.
pub proof fn law_next_numbers(base: nat, branch: Seq<nat>, k: int)
    requires
        1 <= k <= branch.len(),
    ensures
        spec_succeeds(
            ArticleNumModel::Single { base, branch },
            ArticleNumModel::Single { base: base + 1, branch: Seq::empty() },
        ),
        spec_succeeds(
            ArticleNumModel::Single { base, branch },
            ArticleNumModel::Single { base, branch: branch.push(2) },
        ),
        spec_succeeds(
            ArticleNumModel::Single { base, branch },
            ArticleNumModel::Single { base, branch: branch.take(k - 1).push(branch[k - 1] + 1) },
        ),
{
    assert(branch.push(2).take(branch.len() as int) == branch);
    let nbr = branch.take(k - 1).push(branch[k - 1] + 1);
    assert(nbr.take(nbr.len() - 1) == branch.take(k - 1));
}

/// Only the next numbers follow: after `第N条` (with any branch) a number of another base
/// follows only when it is `第N+1条` without branch; a branch one level deeper follows only
/// when it is `の二`; and a branch at a level the number has follows only when it is exactly
/// one more at that level (`第二条の四` does not follow `第二条の二`).
pub proof fn law_only_next_numbers(base: nat, branch: Seq<nat>, k: int, m: nat, other: nat, nbr: Seq<nat>)
    requires
        1 <= k <= branch.len(),
    ensures
        spec_succeeds(
            ArticleNumModel::Single { base, branch },
            ArticleNumModel::Single { base, branch: branch.take(k - 1).push(m) },
        ) <==> m == branch[k - 1] + 1,
        spec_succeeds(
            ArticleNumModel::Single { base, branch },
            ArticleNumModel::Single { base, branch: branch.push(m) },
        ) <==> m == 2,
        other != base ==> (spec_succeeds(
            ArticleNumModel::Single { base, branch },
            ArticleNumModel::Single { base: other, branch: nbr },
        ) <==> (other == base + 1 && nbr.len() == 0)),
{
    let s = branch.take(k - 1).push(m);
    assert(s.take(s.len() - 1) =~= branch.take(k - 1));
    assert(branch.push(m).take(branch.len() as int) =~= branch);
}

/// No number follows itself.
pub proof fn law_no_self_succession(base: nat, branch: Seq<nat>)
    ensures
        !spec_succeeds(ArticleNumModel::Single { base, branch }, ArticleNumModel::Single { base, branch }),
{
}

proof fn lemma_branch_prefix(a: Seq<u32>, b: Seq<u32>, k: int)
    requires
        0 <= k <= a.len(),
        k <= b.len(),
    ensures
        (branch_model(a).take(k) == branch_model(b).take(k)) == (a.take(k) == b.take(k)),
{
    if a.take(k) == b.take(k) {
        assert(branch_model(a).take(k) =~= branch_model(b).take(k)) by {
            assert forall|j: int| 0 <= j < k implies #[trigger] branch_model(a).take(k)[j]
                == branch_model(b).take(k)[j] by {
                assert(a.take(k)[j] == b.take(k)[j]);
            }
        }
    }
    if branch_model(a).take(k) == branch_model(b).take(k) {
        assert(a.take(k) =~= b.take(k)) by {
            assert forall|j: int| 0 <= j < k implies #[trigger] a.take(k)[j] == b.take(k)[j] by {
                assert(branch_model(a).take(k)[j] == branch_model(b).take(k)[j]);
            }
        }
    }
}

/// The first `k` elements of `a` and `b` are equal.
fn prefix_eq(a: &Vec<u32>, b: &Vec<u32>, k: usize) -> (r: bool)
    requires
        k <= a.len(),
        k <= b.len(),
    ensures
        r == (branch_model(a@).take(k as int) == branch_model(b@).take(k as int)),
{
    proof {
        lemma_branch_prefix(a@, b@, k as int);
    }
    let mut i: usize = 0;
    while i < k
        invariant
            i <= k <= a.len(),
            k <= b.len(),
            a@.take(i as int) == b@.take(i as int),
            (branch_model(a@).take(k as int) == branch_model(b@).take(k as int)) == (a@.take(k as int)
                == b@.take(k as int)),
        decreases k - i,
    {
        if a[i] != b[i] {
            assert(a@.take(k as int)[i as int] != b@.take(k as int)[i as int]);
            return false;
        }
        assert(a@.take(i + 1) =~= b@.take(i + 1)) by {
            assert forall|j: int| 0 <= j < i + 1 implies #[trigger] a@.take(i + 1)[j] == b@.take(i + 1)[j] by {
                if j < i {
                    assert(a@.take(i as int)[j] == b@.take(i as int)[j]);
                }
            }
        }
        i = i + 1;
    }
    true
}

/// Whether two numbers are the same.
pub fn same_num(a: &ArticleNum, b: &ArticleNum) -> (r: bool)
    ensures
        r == (a@ == b@),
    decreases a,
{
    match (a, b) {
        (ArticleNum::Single { base: x, branch: bx }, ArticleNum::Single { base: y, branch: by }) => {
            if *x != *y || bx.len() != by.len() {
                proof {
                    if *x != *y {
                        assert(x as nat != y as nat);
                    }
                    if bx.len() != by.len() {
                        assert(branch_model(bx@).len() != branch_model(by@).len());
                    }
                }
                return false;
            }
            let r = prefix_eq(bx, by, bx.len());
            assert(branch_model(bx@).take(bx.len() as int) == branch_model(bx@));
            assert(branch_model(by@).take(by.len() as int) == branch_model(by@));
            r
        },
        (ArticleNum::Range { from: f1, to: t1 }, ArticleNum::Range { from: f2, to: t2 }) => {
            same_num(f1, f2) && same_num(t1, t2)
        },
        (ArticleNum::Other(s1), ArticleNum::Other(s2)) => crate::text::str_eq(s1.as_str(), s2.as_str()),
        _ => false,
    }
}

fn single_of(n: &ArticleNum) -> (r: Option<(u32, &Vec<u32>)>)
    ensures
        match r {
            Some((b, br)) => n@ == (ArticleNumModel::Single { base: b as nat, branch: branch_model(br@) }),
            None => !(n@ is Single),
        },
{
    match n {
        ArticleNum::Single { base, branch } => Some((*base, branch)),
        _ => None,
    }
}

/// Whether `next` may follow `prev` in numbering order. A range stands for its last number
/// when it precedes and for its first when it follows; numbers of another form are not judged.
pub fn succeeds(prev: &ArticleNum, next: &ArticleNum) -> (r: bool)
    ensures
        r == spec_succeeds(prev@, next@),
{
    let p = match prev {
        ArticleNum::Range { to, .. } => &**to,
        q => q,
    };
    let n = match next {
        ArticleNum::Range { from, .. } => &**from,
        q => q,
    };
    assert(p@ == range_end(prev@));
    assert(n@ == range_start(next@));
    let (pb, pbr) = match single_of(p) {
        Some(x) => x,
        None => return true,
    };
    let (nb, nbr) = match single_of(n) {
        Some(x) => x,
        None => return true,
    };
    let ghost pm = branch_model(pbr@);
    let ghost nm = branch_model(nbr@);
    if nb as u64 == pb as u64 + 1 && nbr.len() == 0 {
        return true;
    }
    if nb != pb {
        return false;
    }
    if nbr.len() > pbr.len() && nbr.len() - 1 == pbr.len() && prefix_eq(nbr, pbr, pbr.len()) && nbr[pbr.len()] == 2 {
        assert(pm.take(pbr.len() as int) == pm);
        return true;
    }
    let k = nbr.len();
    if 1 <= k && k <= pbr.len() && prefix_eq(nbr, pbr, k - 1) && nbr[k - 1] as u64 == pbr[k - 1] as u64 + 1 {
        return true;
    }
    proof {
        if nbr.len() == pbr.len() + 1 && nm.take(pbr.len() as int) == pm {
            assert(pm.take(pbr.len() as int) == pm);
        }
    }
    false
}

/// A break in numbering order: `next` does not follow `prev`.
#[derive(Debug, Clone, PartialEq, Eq)]
pub struct NumberingIssue {
    /// The article before (empty when the first article is wrong).
    pub prev: String,
    /// The article after it, which is not "the next number".
    pub next: String,
    pub message: String,
}

/// An issue as three texts: previous label, next label, message.
pub open spec fn issue_view(i: NumberingIssue) -> (Seq<char>, Seq<char>, Seq<char>) {
    (i.prev@, i.next@, i.message@)
}

/// `本則が…から始まる（第一条でない）`: the main provision does not start with Article 1.
pub open spec fn first_issue(first: ArticleNumModel) -> (Seq<char>, Seq<char>, Seq<char>) {
    (Seq::empty(), spec_label(first), "本則が"@ + spec_label(first) + "から始まる（第一条でない）"@)
}

/// `…の次が…（連番でない）`: `next` does not follow `prev`.
pub open spec fn pair_issue(prev: ArticleNumModel, next: ArticleNumModel) -> (Seq<char>, Seq<char>, Seq<char>) {
    (spec_label(prev), spec_label(next), spec_label(prev) + "の次が"@ + spec_label(next) + "（連番でない）"@)
}

/// Article 1 without branch.
pub open spec fn is_article_one(n: ArticleNumModel) -> bool {
    n == (ArticleNumModel::Single { base: 1, branch: Seq::empty() })
}

/// One issue for each adjacent pair, in order, where the second does not follow the first.
pub open spec fn pair_issues(nums: Seq<ArticleNumModel>) -> Seq<(Seq<char>, Seq<char>, Seq<char>)>
    decreases nums.len(),
{
    if nums.len() < 2 {
        Seq::empty()
    } else {
        let prev = nums[nums.len() - 2];
        let next = nums[nums.len() - 1];
        pair_issues(nums.drop_last()) + if spec_succeeds(prev, next) {
            Seq::empty()
        } else {
            seq![pair_issue(prev, next)]
        }
    }
}

/// The issues of a sequence of article numbers: first, when it does not start with
/// Article 1; then each adjacent pair out of order.
pub open spec fn spec_check_sequence(nums: Seq<ArticleNumModel>) -> Seq<(Seq<char>, Seq<char>, Seq<char>)> {
    (if nums.len() > 0 && !is_article_one(nums[0]) {
        seq![first_issue(nums[0])]
    } else {
        Seq::empty()
    }) + pair_issues(nums)
}

/// The models of a slice of numbers.
pub open spec fn nums_model(nums: Seq<ArticleNum>) -> Seq<ArticleNumModel> {
    nums.map_values(|n: ArticleNum| n@)
}

fn is_one(n: &ArticleNum) -> (r: bool)
    ensures
        r == is_article_one(n@),
{
    match n {
        ArticleNum::Single { base, branch } => {
            let r = *base == 1 && branch.len() == 0;
            proof {
                if r {
                    assert(branch_model(branch@) =~= Seq::<nat>::empty());
                }
                if is_article_one(n@) {
                    assert(branch_model(branch@).len() == 0);
                }
            }
            r
        },
        _ => false,
    }
}

/// The issues as texts.
pub open spec fn issues_view(v: Seq<NumberingIssue>) -> Seq<(Seq<char>, Seq<char>, Seq<char>)> {
    v.map_values(|i: NumberingIssue| issue_view(i))
}

proof fn lemma_pair_issues_step(m: Seq<ArticleNumModel>, i: int)
    requires
        1 <= i < m.len(),
    ensures
        pair_issues(m.take(i + 1)) == pair_issues(m.take(i)) + if spec_succeeds(m[i - 1], m[i]) {
            Seq::empty()
        } else {
            seq![pair_issue(m[i - 1], m[i])]
        },
{
    assert(m.take(i + 1).drop_last() == m.take(i));
    assert(m.take(i + 1)[i - 1] == m[i - 1]);
    assert(m.take(i + 1)[i] == m[i]);
}

proof fn lemma_pair_issues_empty(nums: Seq<ArticleNumModel>)
    ensures
        pair_issues(nums).len() == 0 <==> forall|i: int| 1 <= i < nums.len() ==> spec_succeeds(
            nums[i - 1],
            #[trigger] nums[i],
        ),
    decreases nums.len(),
{
    if nums.len() >= 2 {
        let p = nums.drop_last();
        lemma_pair_issues_empty(p);
        if forall|i: int| 1 <= i < nums.len() ==> spec_succeeds(nums[i - 1], #[trigger] nums[i]) {
            assert forall|i: int| 1 <= i < p.len() implies spec_succeeds(p[i - 1], #[trigger] p[i]) by {
                assert(spec_succeeds(nums[i - 1], nums[i]));
            }
            assert(spec_succeeds(nums[nums.len() - 2], nums[nums.len() - 1]));
        }
        if pair_issues(nums).len() == 0 {
            assert forall|i: int| 1 <= i < nums.len() implies spec_succeeds(nums[i - 1], #[trigger] nums[i]) by {
                if i < nums.len() - 1 {
                    assert(spec_succeeds(p[i - 1], p[i]));
                }
            }
        }
    }
}

/// A sequence of article numbers has no issue exactly when it is empty or starts with
/// Article 1, and each number follows the one before it.
pub proof fn law_clean_sequence(nums: Seq<ArticleNumModel>)
    ensures
        spec_check_sequence(nums).len() == 0 <==> (nums.len() == 0 || is_article_one(nums[0])) && forall|i: int|
            1 <= i < nums.len() ==> spec_succeeds(nums[i - 1], #[trigger] nums[i]),
{
    lemma_pair_issues_empty(nums);
}

proof fn lemma_issues_push(v: Seq<NumberingIssue>, x: NumberingIssue)
    ensures
        issues_view(v.push(x)) == issues_view(v).push(issue_view(x)),
{
    assert(issues_view(v.push(x)) =~= issues_view(v).push(issue_view(x)));
}

fn first_issue_of(first: &ArticleNum) -> (r: NumberingIssue)
    ensures
        issue_view(r) == first_issue(first@),
{
    let next = label(first);
    let mut message = String::new();
    push_str(&mut message, "本則が");
    push_string(&mut message, &next);
    push_str(&mut message, "から始まる（第一条でない）");
    NumberingIssue { prev: String::new(), next, message }
}

fn pair_issue_of(prev: &ArticleNum, next: &ArticleNum) -> (r: NumberingIssue)
    ensures
        issue_view(r) == pair_issue(prev@, next@),
{
    let prev = label(prev);
    let next = label(next);
    let mut message = String::new();
    push_string(&mut message, &prev);
    push_str(&mut message, "の次が");
    push_string(&mut message, &next);
    push_str(&mut message, "（連番でない）");
    NumberingIssue { prev, next, message }
}

/// The breaks in numbering order of a sequence of article numbers.
pub fn check_sequence(nums: &[ArticleNum]) -> (out: Vec<NumberingIssue>)
    ensures
        issues_view(out@) == spec_check_sequence(nums_model(nums@)),
{
    let ghost m = nums_model(nums@);
    let mut out: Vec<NumberingIssue> = Vec::new();
    if nums.len() == 0 {
        assert(issues_view(out@) =~= spec_check_sequence(m));
        return out;
    }
    if !is_one(&nums[0]) {
        let issue = first_issue_of(&nums[0]);
        proof {
            lemma_issues_push(out@, issue);
        }
        out.push(issue);
    }
    let ghost head = issues_view(out@);
    assert(head == (if m.len() > 0 && !is_article_one(m[0]) {
        seq![first_issue(m[0])]
    } else {
        Seq::empty()
    }));
    assert(m.take(1).len() < 2);
    assert(pair_issues(m.take(1)) == Seq::<(Seq<char>, Seq<char>, Seq<char>)>::empty());
    let mut i: usize = 1;
    while i < nums.len()
        invariant
            1 <= i <= nums.len(),
            m == nums_model(nums@),
            issues_view(out@) == head + pair_issues(m.take(i as int)),
        decreases nums.len() - i,
    {
        proof {
            lemma_pair_issues_step(m, i as int);
        }
        assert(m[i - 1] == nums@[i - 1]@);
        assert(m[i as int] == nums@[i as int]@);
        if !succeeds(&nums[i - 1], &nums[i]) {
            let issue = pair_issue_of(&nums[i - 1], &nums[i]);
            proof {
                lemma_issues_push(out@, issue);
            }
            out.push(issue);
        }
        i = i + 1;
    }
    assert(m.take(nums.len() as int) == m);
    out
}


/// The value of a field of digits.
pub open spec fn field_value(f: Seq<char>) -> nat {
    decimal_value(f) as nat
}

/// All fields are fields of digits that fit in `u32`.
pub open spec fn all_u32_fields(f: Seq<Seq<char>>) -> bool {
    forall|i: int| 0 <= i < f.len() ==> is_u32_field(#[trigger] f[i])
}

/// `12_2_3` as article 12 with branch `[2, 3]`: fields of digits between `_`.
pub open spec fn spec_parse_single(t: Seq<char>) -> Option<ArticleNumModel> {
    let f = split_on(t, '_');
    if all_u32_fields(f) {
        Some(ArticleNumModel::Single {
            base: field_value(f[0]),
            branch: f.drop_first().map_values(|x: Seq<char>| field_value(x)),
        })
    } else {
        None
    }
}

/// The number that the compact form writes: `12_2` is a single number, `153:160` a range
/// of two single numbers; anything else is a number of another form, kept as written.
pub open spec fn spec_parse(t: Seq<char>) -> ArticleNumModel {
    let p = split_on(t, ':');
    if p.len() == 2 && spec_parse_single(p[0]) is Some && spec_parse_single(p[1]) is Some {
        ArticleNumModel::Range {
            from: Box::new(spec_parse_single(p[0]).unwrap()),
            to: Box::new(spec_parse_single(p[1]).unwrap()),
        }
    } else if p.len() == 1 && spec_parse_single(t) is Some {
        spec_parse_single(t).unwrap()
    } else {
        ArticleNumModel::Other(t)
    }
}

/// `_2_3` for the branch `[2, 3]`.
pub open spec fn branch_num_string(b: Seq<nat>) -> Seq<char>
    decreases b.len(),
{
    if b.len() == 0 {
        Seq::empty()
    } else {
        branch_num_string(b.drop_last()) + seq!['_'] + spec_decimal(b.last())
    }
}

/// The compact form of a number: `12_2`, `153:160`, or the text of a number of another form.
pub open spec fn spec_num_string(n: ArticleNumModel) -> Seq<char>
    decreases n,
{
    match n {
        ArticleNumModel::Single { base, branch } => spec_decimal(base) + branch_num_string(branch),
        ArticleNumModel::Range { from, to } => spec_num_string(*from) + seq![':'] + spec_num_string(*to),
        ArticleNumModel::Other(s) => s,
    }
}

fn parse_single(t: &[char]) -> (r: Option<ArticleNum>)
    ensures
        match r {
            Some(n) => spec_parse_single(t@) == Some(n@),
            None => spec_parse_single(t@) is None,
        },
{
    let fields = split_chars(t, '_');
    let ghost f = split_on(t@, '_');
    proof {
        lemma_split_on_nonempty(t@, '_');
    }
    let mut vals: Vec<u32> = Vec::new();
    let mut i: usize = 0;
    while i < fields.len()
        invariant
            i <= fields.len(),
            seqs_of(fields@) == f,
            f == split_on(t@, '_'),
            forall|k: int| 0 <= k < i ==> is_u32_field(#[trigger] f[k]),
            vals@.len() == i,
            forall|k: int| 0 <= k < i ==> #[trigger] vals@[k] as nat == field_value(f[k]),
        decreases fields.len() - i,
    {
        assert(f[i as int] == fields@[i as int]@);
        match decimal_u32(fields[i].as_slice()) {
            Some(v) => {
                assert(is_u32_field(f[i as int]));
                proof {
                    crate::numeral::lemma_decimal_value_nonneg(f[i as int]);
                }
                assert(v as nat == field_value(f[i as int]));
                let ghost old_vals = vals@;
                vals.push(v);
                assert(forall|k: int| 0 <= k < i ==> vals@[k] == old_vals[k]);
            },
            None => {
                assert(!is_u32_field(f[i as int]));
                assert(!all_u32_fields(f));
                assert(spec_parse_single(t@) is None);
                return None;
            },
        }
        i = i + 1;
    }
    let base = vals[0];
    let branch = crate::text::slice_from(&vals, 1);
    let r = ArticleNum::Single { base, branch };
    assert(branch_model(branch@) =~= f.drop_first().map_values(|x: Seq<char>| field_value(x)));
    Some(r)
}

impl ArticleNum {
    /// Reads the compact form: `12_2` is Article 12-2, `153:160` the range from 153 to 160;
    /// any other text is a number of another form, kept as written.
    pub fn parse(s: &str) -> (r: ArticleNum)
        ensures
            r@ == spec_parse(s@),
    {
        let t = chars_of(s);
        let parts = split_chars(t.as_slice(), ':');
        proof {
            lemma_split_on_nonempty(s@, ':');
        }
        assert(parts@[0]@ == split_on(s@, ':')[0]);
        if parts.len() == 2 {
            assert(parts@[1]@ == split_on(s@, ':')[1]);
            match (parse_single(parts[0].as_slice()), parse_single(parts[1].as_slice())) {
                (Some(a), Some(b)) => {
                    return ArticleNum::Range { from: Box::new(a), to: Box::new(b) };
                },
                _ => {},
            }
        } else if parts.len() == 1 {
            match parse_single(t.as_slice()) {
                Some(a) => {
                    return a;
                },
                None => {},
            }
        }
        ArticleNum::Other(string_of(t.as_slice()))
    }

    /// The compact form: `12_2`, `153:160`, or the text of a number of another form.
    pub fn to_num_string(&self) -> (s: String)
        ensures
            s@ == spec_num_string(self@),
        decreases self,
    {
        match self {
            ArticleNum::Single { base, branch } => {
                let mut s = String::new();
                push_decimal(&mut s, *base as u64);
                let mut i: usize = 0;
                while i < branch.len()
                    invariant
                        i <= branch.len(),
                        s@ == spec_decimal(*base as nat) + branch_num_string(branch_model(branch@.take(i as int))),
                    decreases branch.len() - i,
                {
                    push_char(&mut s, '_');
                    push_decimal(&mut s, branch[i] as u64);
                    assert(branch_model(branch@.take(i + 1)).drop_last() == branch_model(branch@.take(i as int)));
                    assert(branch_model(branch@.take(i + 1)).last() == branch@[i as int] as nat);
                    i = i + 1;
                }
                assert(branch@.take(branch.len() as int) == branch@);
                s
            },
            ArticleNum::Range { from, to } => {
                let mut s = from.to_num_string();
                push_char(&mut s, ':');
                let t = to.to_num_string();
                push_string(&mut s, &t);
                s
            },
            ArticleNum::Other(o) => o.clone(),
        }
    }
}


/// The article strings that are judged: markers of the table of contents (`toc`) and of
/// articleless paragraphs (`main`) are skipped, and so is a repeat of the string kept last.
pub open spec fn kept_arts(arts: Seq<Seq<char>>) -> Seq<Seq<char>>
    decreases arts.len(),
{
    if arts.len() == 0 {
        Seq::empty()
    } else {
        let k = kept_arts(arts.drop_last());
        let a = arts.last();
        if a == "toc"@ || a == "main"@ || (k.len() > 0 && k.last() == a) {
            k
        } else {
            k.push(a)
        }
    }
}

/// The texts of a slice of string slices.
pub open spec fn strs_view(arts: Seq<&str>) -> Seq<Seq<char>> {
    arts.map_values(|a: &str| a@)
}

/// The breaks in numbering order of the article strings of a rendered revision (`142_4`,
/// `153:160`; `toc` and `main` are skipped, as are repeats of an article, one per paragraph).
pub fn check_art_strings(arts: &[&str]) -> (out: Vec<NumberingIssue>)
    ensures
        issues_view(out@) == spec_check_sequence(kept_arts(strs_view(arts@)).map_values(
            |a: Seq<char>| spec_parse(a),
        )),
{
    let ghost v = strs_view(arts@);
    let mut nums: Vec<ArticleNum> = Vec::new();
    let mut kept: Vec<&str> = Vec::new();
    let mut i: usize = 0;
    while i < arts.len()
        invariant
            i <= arts.len(),
            v == strs_view(arts@),
            strs_view(kept@) == kept_arts(v.take(i as int)),
            nums_model(nums@) == kept_arts(v.take(i as int)).map_values(|a: Seq<char>| spec_parse(a)),
        decreases arts.len() - i,
    {
        let a = arts[i];
        assert(v.take(i + 1).drop_last() == v.take(i as int));
        assert(v.take(i + 1).last() == a@);
        let skip = str_eq(a, "toc") || str_eq(a, "main") || (kept.len() > 0 && str_eq(kept[kept.len() - 1], a));
        if !skip {
            let ghost k0 = kept@;
            let ghost n0 = nums@;
            kept.push(a);
            nums.push(ArticleNum::parse(a));
            assert(strs_view(kept@) =~= strs_view(k0).push(a@));
            assert(nums_model(nums@) =~= nums_model(n0).push(spec_parse(a@)));
        }
        assert(nums_model(nums@) =~= kept_arts(v.take(i + 1)).map_values(|a: Seq<char>| spec_parse(a)));
        i = i + 1;
    }
    assert(v.take(arts.len() as int) == v);
    check_sequence(nums.as_slice())
}

/// The compact form of a number of digits is digits and `_`, without `:`.
proof fn lemma_num_string_single(base: nat, branch: Seq<nat>)
    requires
        base <= u32::MAX,
        forall|i: int| 0 <= i < branch.len() ==> #[trigger] branch[i] <= u32::MAX,
    ensures
        split_on(spec_decimal(base) + branch_num_string(branch), '_')
            == seq![spec_decimal(base)] + branch.map_values(|b: nat| spec_decimal(b)),
        lacks(spec_decimal(base) + branch_num_string(branch), ':'),
    decreases branch.len(),
{
    lemma_decimal_roundtrip(base);
    let t = spec_decimal(base) + branch_num_string(branch);
    if branch.len() == 0 {
        assert(t == spec_decimal(base));
        assert(lacks(t, '_')) by {
            assert forall|i: int| 0 <= i < t.len() implies t[i] != '_' by {
                assert(is_ascii_digit(t[i]));
            }
        }
        lemma_split_on_lacking(t, '_');
        assert(lacks(t, ':')) by {
            assert forall|i: int| 0 <= i < t.len() implies t[i] != ':' by {
                assert(is_ascii_digit(t[i]));
            }
        }
        assert(branch.map_values(|b: nat| spec_decimal(b)) =~= Seq::<Seq<char>>::empty());
        assert(seq![spec_decimal(base)] + Seq::<Seq<char>>::empty() =~= seq![spec_decimal(base)]);
    } else {
        let pre = branch.drop_last();
        let last = branch.last();
        lemma_num_string_single(base, pre);
        lemma_decimal_roundtrip(last);
        let u = spec_decimal(base) + branch_num_string(pre);
        let d = spec_decimal(last);
        assert(t == u + seq!['_'] + d);
        lemma_split_on_concat(u, d, '_');
        assert(lacks(d, '_')) by {
            assert forall|i: int| 0 <= i < d.len() implies d[i] != '_' by {
                assert(is_ascii_digit(d[i]));
            }
        }
        lemma_split_on_lacking(d, '_');
        assert(branch.map_values(|b: nat| spec_decimal(b)) =~= pre.map_values(|b: nat| spec_decimal(b)).push(d));
        assert(split_on(t, '_') =~= seq![spec_decimal(base)] + branch.map_values(|b: nat| spec_decimal(b)));
        assert(lacks(t, ':')) by {
            assert forall|i: int| 0 <= i < t.len() implies t[i] != ':' by {
                if i >= u.len() + 1 {
                    assert(t[i] == d[i - u.len() - 1]);
                    assert(is_ascii_digit(d[i - u.len() - 1]));
                } else if i < u.len() {
                    assert(t[i] == u[i]);
                }
            }
        }
    }
}

proof fn lemma_parse_single_of_num_string(base: nat, branch: Seq<nat>)
    requires
        base <= u32::MAX,
        forall|i: int| 0 <= i < branch.len() ==> #[trigger] branch[i] <= u32::MAX,
    ensures
        spec_parse_single(spec_decimal(base) + branch_num_string(branch))
            == Some(ArticleNumModel::Single { base, branch }),
        lacks(spec_decimal(base) + branch_num_string(branch), ':'),
{
    lemma_num_string_single(base, branch);
    let t = spec_decimal(base) + branch_num_string(branch);
    let f = split_on(t, '_');
    lemma_decimal_roundtrip(base);
    assert forall|i: int| 0 <= i < f.len() implies is_u32_field(#[trigger] f[i]) by {
        if i == 0 {
            assert(f[0] == spec_decimal(base));
        } else {
            assert(f[i] == spec_decimal(branch[i - 1]));
            lemma_decimal_roundtrip(branch[i - 1]);
        }
    }
    assert(f.drop_first().map_values(|x: Seq<char>| field_value(x)) =~= branch) by {
        assert forall|i: int| 0 <= i < branch.len() implies f.drop_first().map_values(
            |x: Seq<char>| field_value(x),
        )[i] == branch[i] by {
            assert(f.drop_first()[i] == spec_decimal(branch[i]));
            lemma_decimal_roundtrip(branch[i]);
        }
    }
}

/// Reading back the compact form of a single number, or of a range of two single numbers,
/// gives the number.
pub proof fn lemma_parse_num_string(n: ArticleNum)
    requires
        n is Single || (n matches ArticleNum::Range { from, to } && *from is Single && *to is Single),
    ensures
        spec_parse(spec_num_string(n@)) == n@,
{
    match n {
        ArticleNum::Single { base, branch } => {
            let br = branch_model(branch@);
            assert forall|i: int| 0 <= i < br.len() implies #[trigger] br[i] <= u32::MAX by {}
            lemma_parse_single_of_num_string(base as nat, br);
            let t = spec_num_string(n@);
            lemma_split_on_lacking(t, ':');
        },
        ArticleNum::Range { from, to } => {
            match (*from, *to) {
                (ArticleNum::Single { base: b1, branch: r1 }, ArticleNum::Single { base: b2, branch: r2 }) => {
                    let m1 = branch_model(r1@);
                    let m2 = branch_model(r2@);
                    assert forall|i: int| 0 <= i < m1.len() implies #[trigger] m1[i] <= u32::MAX by {}
                    assert forall|i: int| 0 <= i < m2.len() implies #[trigger] m2[i] <= u32::MAX by {}
                    lemma_parse_single_of_num_string(b1 as nat, m1);
                    lemma_parse_single_of_num_string(b2 as nat, m2);
                    let t1 = spec_num_string(from@);
                    let t2 = spec_num_string(to@);
                    lemma_split_on_lacking(t1, ':');
                    lemma_split_on_lacking(t2, ':');
                    lemma_split_on_concat(t1, t2, ':');
                    assert(split_on(spec_num_string(n@), ':') =~= seq![t1, t2]);
                },
                _ => {},
            }
        },
        _ => {},
    }
}

} // verus!
