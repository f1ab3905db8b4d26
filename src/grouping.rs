//! Grouping of positions by digest, in order of first occurrence.
use vstd::prelude::*;
use crate::digest_map::{DigestMap, digest_map_contents};

verus! {

/// The positions of a sequence of digests, grouped by digest.
///
/// `keys` holds each distinct digest once, in the order of its first
/// occurrence; `group_of[p]` is the group of position `p`; `firsts[g]` is the
/// first position of group `g`.
pub struct Grouping {
    pub keys: Vec<u64>,
    pub group_of: Vec<usize>,
    pub firsts: Vec<usize>,
}

/// `keys`, `group_of` and `firsts` group the first `n` positions of `input`.
pub open spec fn groups_prefix(
    input: Seq<u64>,
    n: int,
    keys: Seq<u64>,
    group_of: Seq<usize>,
    firsts: Seq<usize>,
) -> bool {
    &&& 0 <= n <= input.len()
    &&& group_of.len() == n
    &&& firsts.len() == keys.len()
    &&& keys.no_duplicates()
    &&& forall|p: int|
        0 <= p < n ==> #[trigger] group_of[p] < keys.len() && keys[group_of[p] as int] == input[p]
            && firsts[group_of[p] as int] <= p
    &&& forall|g: int|
        0 <= g < keys.len() ==> #[trigger] firsts[g] < n && input[firsts[g] as int] == keys[g]
    &&& forall|g: int, h: int| 0 <= g < h < keys.len() ==> firsts[g] < firsts[h]
}

/// `r` groups all positions of `input`.
pub open spec fn is_grouping_of(input: Seq<u64>, r: Grouping) -> bool {
    groups_prefix(input, input.len() as int, r.keys@, r.group_of@, r.firsts@)
}

/// Groups the positions of `input` by digest. Groups come in the order in
/// which their digest first occurs.
pub fn group_by_digest(input: &Vec<u64>) -> (r: Grouping)
    ensures
        is_grouping_of(input@, r),
{
    let mut keys: Vec<u64> = Vec::new();
    let mut group_of: Vec<usize> = Vec::new();
    let mut firsts: Vec<usize> = Vec::new();
    let mut index = DigestMap::new();
    proof {
        assert(digest_map_contents(index) =~= Map::empty());
    }
    let mut p: usize = 0;
    while p < input.len()
        invariant
            groups_prefix(input@, p as int, keys@, group_of@, firsts@),
            keys@.len() <= p,
            forall|k: u64| #[trigger]
                digest_map_contents(index).contains_key(k) == keys@.contains(k),
            forall|g: int|
                0 <= g < keys@.len() ==> digest_map_contents(index)[#[trigger] keys@[g]] == g,
        decreases input.len() - p,
    {
        let k = input[p];
        match index.get(k) {
            Some(g) => {
                proof {
                    let j = choose|j: int| 0 <= j < keys@.len() && keys@[j] == k;
                    assert(digest_map_contents(index)[keys@[j]] == j);
                }
                group_of.push(g as usize);
                proof {
                    let j = choose|j: int| 0 <= j < keys@.len() && keys@[j] == k;
                    assert(firsts@[j] < p);
                }
            },
            None => {
                assert(!keys@.contains(k));
                let ghost old_keys = keys@;
                let g = keys.len();
                index.insert(k, g as u64);
                group_of.push(g);
                firsts.push(p);
                keys.push(k);
                proof {
                    assert forall|x: int, y: int|
                        0 <= x < keys@.len() && 0 <= y < keys@.len() && x != y implies keys@[x]
                            != keys@[y] by {
                        if x == g as int {
                            assert(!old_keys.contains(k));
                            assert(keys@[y] == old_keys[y]);
                        }
                        if y == g as int {
                            assert(keys@[x] == old_keys[x]);
                        }
                    }
                    assert forall|kk: u64| #[trigger]
                        digest_map_contents(index).contains_key(kk) == keys@.contains(kk) by {
                        if kk != k && keys@.contains(kk) {
                            let j = choose|j: int| 0 <= j < keys@.len() && keys@[j] == kk;
                            assert(j < g);
                            assert(old_keys[j] == kk);
                            assert(old_keys.contains(kk));
                        }
                        if kk != k && old_keys.contains(kk) {
                            let j = choose|j: int| 0 <= j < old_keys.len() && old_keys[j] == kk;
                            assert(keys@[j] == kk);
                        }
                        if kk == k {
                            assert(keys@[g as int] == k);
                        }
                    }
                }
            },
        }
        p = p + 1;
    }
    Grouping { keys, group_of, firsts }
}

/// Within a grouping, the first position of group `g` is the first position
/// whose digest lies outside the groups before `g`.
proof fn lemma_first_is_first_new(input: Seq<u64>, r: Grouping, g: int, p: int)
    requires
        is_grouping_of(input, r),
        0 <= g < r.keys@.len(),
        0 <= p < r.firsts@[g],
    ensures
        r.keys@.take(g).contains(input[p]),
{
    let h = r.group_of@[p] as int;
    assert(r.firsts@[h] <= p);
    if h >= g {
        if h > g {
            assert(r.firsts@[g] < r.firsts@[h]);
        }
    }
    assert(r.keys@.take(g)[h] == input[p]);
}

/// The digest at the first position of group `g` lies outside the groups
/// before `g`.
proof fn lemma_first_not_before(input: Seq<u64>, r: Grouping, g: int)
    requires
        is_grouping_of(input, r),
        0 <= g < r.keys@.len(),
    ensures
        !r.keys@.take(g).contains(input[r.firsts@[g] as int]),
{
    if r.keys@.take(g).contains(input[r.firsts@[g] as int]) {
        let h = choose|h: int| 0 <= h < g && r.keys@.take(g)[h] == input[r.firsts@[g] as int];
        assert(r.keys@[h] == r.keys@[g]);
    }
}

/// Two groupings of the same input agree on their first `g` groups.
proof fn lemma_prefix_agree(input: Seq<u64>, a: Grouping, b: Grouping, g: int)
    requires
        is_grouping_of(input, a),
        is_grouping_of(input, b),
        0 <= g <= a.keys@.len(),
        g <= b.keys@.len(),
    ensures
        a.keys@.take(g) == b.keys@.take(g),
        forall|h: int| 0 <= h < g ==> a.firsts@[h] == b.firsts@[h],
    decreases g,
{
    if g == 0 {
        assert(a.keys@.take(0) =~= b.keys@.take(0));
    } else {
        let f = g - 1;
        lemma_prefix_agree(input, a, b, f);
        let fa = a.firsts@[f] as int;
        let fb = b.firsts@[f] as int;
        if fa < fb {
            lemma_first_is_first_new(input, b, f, fa);
            lemma_first_not_before(input, a, f);
        }
        if fb < fa {
            lemma_first_is_first_new(input, a, f, fb);
            lemma_first_not_before(input, b, f);
        }
        assert(a.keys@[f] == b.keys@[f]);
        assert(a.keys@.take(g) =~= a.keys@.take(f).push(a.keys@[f]));
        assert(b.keys@.take(g) =~= b.keys@.take(f).push(b.keys@[f]));
    }
}

/// The grouping of a sequence of digests is unique: any two groupings of the
/// same input have the same groups in the same order, and assign each
/// position to the same group.
pub proof fn lemma_grouping_unique(input: Seq<u64>, a: Grouping, b: Grouping)
    requires
        is_grouping_of(input, a),
        is_grouping_of(input, b),
    ensures
        a.keys@ == b.keys@,
        a.firsts@ == b.firsts@,
        a.group_of@ == b.group_of@,
{
    let n = if a.keys@.len() < b.keys@.len() { a.keys@.len() } else { b.keys@.len() };
    lemma_prefix_agree(input, a, b, n as int);
    if a.keys@.len() > n {
        let p = a.firsts@[n as int] as int;
        let h = b.group_of@[p] as int;
        assert(b.keys@[h] == input[p]);
        assert(a.keys@.take(n as int) == b.keys@.take(n as int));
        assert(b.keys@.take(n as int)[h] == input[p]);
        lemma_first_not_before(input, a, n as int);
    }
    if b.keys@.len() > n {
        let p = b.firsts@[n as int] as int;
        let h = a.group_of@[p] as int;
        assert(a.keys@[h] == input[p]);
        assert(a.keys@.take(n as int)[h] == input[p]);
        lemma_first_not_before(input, b, n as int);
    }
    assert(a.keys@ =~= a.keys@.take(n as int));
    assert(b.keys@ =~= b.keys@.take(n as int));
    assert(a.firsts@ =~= b.firsts@);
    assert forall|p: int| 0 <= p < input.len() implies a.group_of@[p] == b.group_of@[p] by {
        let x = a.group_of@[p] as int;
        let y = b.group_of@[p] as int;
        assert(a.keys@[x] == b.keys@[y]);
        assert(b.keys@[x] == b.keys@[y]);
    }
    assert(a.group_of@ =~= b.group_of@);
}

/// The groups of a grouping are exactly the digests that occur in its input.
pub proof fn lemma_grouping_keys(input: Seq<u64>, r: Grouping)
    requires
        is_grouping_of(input, r),
    ensures
        forall|d: u64| #[trigger] r.keys@.contains(d) <==> input.contains(d),
{
    assert forall|d: u64| #[trigger] r.keys@.contains(d) <==> input.contains(d) by {
        if r.keys@.contains(d) {
            let g = choose|g: int| 0 <= g < r.keys@.len() && r.keys@[g] == d;
            assert(input[r.firsts@[g] as int] == d);
        }
        if input.contains(d) {
            let p = choose|p: int| 0 <= p < input.len() && input[p] == d;
            assert(r.keys@[r.group_of@[p] as int] == d);
        }
    }
}

} // verus!
