//! The structure of rule composition.
//!
//! At a source state, each applicable rule leads to a successor digest.
//! Rules that lead to the same successor are merged into one outcome whose
//! description joins theirs with `" | "`, in rule order. Where the rules may
//! all fail to fire, the do-nothing mass goes to a self-loop: it joins the
//! outcome that already leads back to the source, with `" | Nothing"` added to
//! its description, or else forms an outcome of its own described as
//! `"Nothing"`. The weights, their product and the normalisation are
//! arithmetic on the outcomes' rule positions that the caller performs.
use vstd::prelude::*;
use vstd::string::StringExecFns;

verus! {

/// One successor of a source state under a set of rules.
#[derive(Clone, Debug)]
pub struct Outcome {
    /// The successor's digest.
    pub target: u64,
    /// The positions of the rules that lead to it, in increasing order.
    pub rules: Vec<usize>,
    /// The rules' descriptions joined by `" | "`, with `" | Nothing"` added
    /// where the outcome also carries the do-nothing mass, or `"Nothing"`
    /// alone for a do-nothing outcome of its own.
    pub description: String,
    /// Whether the outcome carries the do-nothing mass.
    pub with_nothing: bool,
}

/// The distinct digests of `s`, in the order of their first occurrence.
pub open spec fn first_occurrences(s: Seq<u64>) -> Seq<u64>
    decreases s.len(),
{
    if s.len() == 0 {
        Seq::empty()
    } else {
        let d = first_occurrences(s.drop_last());
        if d.contains(s.last()) {
            d
        } else {
            d.push(s.last())
        }
    }
}

/// The positions at which `t` occurs in `s`, in increasing order.
pub open spec fn positions_of(s: Seq<u64>, t: u64) -> Seq<usize>
    decreases s.len(),
{
    if s.len() == 0 {
        Seq::empty()
    } else if s.last() == t {
        positions_of(s.drop_last(), t).push((s.len() - 1) as usize)
    } else {
        positions_of(s.drop_last(), t)
    }
}

/// The parts joined by `sep`.
pub open spec fn joined(parts: Seq<Seq<char>>, sep: Seq<char>) -> Seq<char>
    decreases parts.len(),
{
    if parts.len() == 0 {
        Seq::empty()
    } else if parts.len() == 1 {
        parts[0]
    } else {
        joined(parts.drop_last(), sep) + sep + parts.last()
    }
}

/// The descriptions at the given positions.
pub open spec fn descriptions_at(descriptions: Seq<String>, positions: Seq<usize>) -> Seq<Seq<char>> {
    positions.map_values(|q: usize| descriptions[q as int]@)
}

/// What `compose_outcomes` returns for a source, the successor digests of the
/// applicable rules with their descriptions, and whether the do-nothing mass
/// is positive.
pub open spec fn composed(
    source: u64,
    targets: Seq<u64>,
    descriptions: Seq<String>,
    nothing: bool,
    r: Seq<Outcome>,
) -> bool {
    let keys = first_occurrences(targets);
    let separate = nothing && !keys.contains(source);
    &&& r.len() == keys.len() + (if separate { 1int } else { 0int })
    &&& forall|g: int|
        0 <= g < keys.len() ==> {
            let o = #[trigger] r[g];
            let merged = nothing && keys[g] == source;
            &&& o.target == keys[g]
            &&& o.rules@ == positions_of(targets, keys[g])
            &&& o.with_nothing == merged
            &&& o.description@ == joined(descriptions_at(descriptions, o.rules@), " | "@) + (if merged {
                " | Nothing"@
            } else {
                Seq::<char>::empty()
            })
        }
    &&& separate ==> {
        let o = r[keys.len() as int];
        &&& o.target == source
        &&& o.rules@.len() == 0
        &&& o.with_nothing
        &&& o.description@ == "Nothing"@
    }
}

/// Whether `v` holds `x`.
fn contains_digest(v: &Vec<u64>, x: u64) -> (r: bool)
    ensures
        r == v@.contains(x),
{
    let mut i: usize = 0;
    while i < v.len()
        invariant
            0 <= i <= v@.len(),
            forall|j: int| 0 <= j < i ==> v@[j] != x,
        decreases v@.len() - i,
    {
        if v[i] == x {
            return true;
        }
        i = i + 1;
    }
    false
}

/// The strings at `positions` joined by `sep`.
pub fn join_at(strings: &Vec<String>, positions: &Vec<usize>, sep: &str) -> (r: String)
    requires
        forall|q: int| 0 <= q < positions@.len() ==> #[trigger] positions@[q] < strings@.len(),
    ensures
        r@ == joined(descriptions_at(strings@, positions@), sep@),
{
    let mut out = String::new();
    let mut i: usize = 0;
    proof {
        assert(descriptions_at(strings@, positions@.take(0)) =~= Seq::<Seq<char>>::empty());
    }
    while i < positions.len()
        invariant
            0 <= i <= positions@.len(),
            forall|q: int| 0 <= q < positions@.len() ==> #[trigger] positions@[q] < strings@.len(),
            out@ == joined(descriptions_at(strings@, positions@.take(i as int)), sep@),
        decreases positions@.len() - i,
    {
        let ghost parts = descriptions_at(strings@, positions@.take(i as int));
        let p = positions[i];
        if i == 0 {
            out = strings[p].clone();
        } else {
            out.append(sep);
            out.append(strings[p].as_str());
        }
        proof {
            let now = descriptions_at(strings@, positions@.take(i + 1));
            assert(now =~= parts.push(strings@[p as int]@));
            assert(now.drop_last() =~= parts);
            if i == 0 {
                assert(now.len() == 1);
            }
        }
        i = i + 1;
    }
    proof {
        assert(positions@.take(positions@.len() as int) =~= positions@);
    }
    out
}

/// The positions at which `key` occurs in `targets`.
fn positions(key: u64, targets: &Vec<u64>) -> (r: Vec<usize>)
    ensures
        r@ == positions_of(targets@, key),
        forall|q: int| 0 <= q < r@.len() ==> #[trigger] r@[q] < targets@.len(),
{
    let mut rules: Vec<usize> = Vec::new();
    let mut p: usize = 0;
    proof {
        assert(targets@.take(0) =~= Seq::<u64>::empty());
    }
    while p < targets.len()
        invariant
            0 <= p <= targets@.len(),
            rules@ == positions_of(targets@.take(p as int), key),
            forall|q: int| 0 <= q < rules@.len() ==> #[trigger] rules@[q] < p,
        decreases targets@.len() - p,
    {
        proof {
            assert(targets@.take(p + 1).drop_last() =~= targets@.take(p as int));
            assert(targets@.take(p + 1).last() == targets@[p as int]);
        }
        if targets[p] == key {
            rules.push(p);
        }
        p = p + 1;
    }
    proof {
        assert(targets@.take(targets@.len() as int) =~= targets@);
    }
    rules
}

/// Composes the outcomes at `source`, where `targets[i]` is the successor
/// digest of the `i`-th applicable rule and `descriptions[i]` its
/// description, and `nothing` says whether the do-nothing mass is positive.
/// Outcomes come in the order in which their digest first occurs; a
/// do-nothing outcome of its own comes last.
pub fn compose_outcomes(
    source: u64,
    targets: &Vec<u64>,
    descriptions: &Vec<String>,
    nothing: bool,
) -> (r: Vec<Outcome>)
    requires
        targets@.len() == descriptions@.len(),
    ensures
        composed(source, targets@, descriptions@, nothing, r@),
{
    let mut keys: Vec<u64> = Vec::new();
    let mut p: usize = 0;
    proof {
        assert(targets@.take(0) =~= Seq::<u64>::empty());
    }
    while p < targets.len()
        invariant
            0 <= p <= targets@.len(),
            keys@ == first_occurrences(targets@.take(p as int)),
        decreases targets@.len() - p,
    {
        proof {
            assert(targets@.take(p + 1).drop_last() =~= targets@.take(p as int));
            assert(targets@.take(p + 1).last() == targets@[p as int]);
        }
        if !contains_digest(&keys, targets[p]) {
            keys.push(targets[p]);
        }
        p = p + 1;
    }
    proof {
        assert(targets@.take(targets@.len() as int) =~= targets@);
    }
    let mut out: Vec<Outcome> = Vec::new();
    let mut g: usize = 0;
    while g < keys.len()
        invariant
            targets@.len() == descriptions@.len(),
            keys@ == first_occurrences(targets@),
            0 <= g <= keys@.len(),
            out@.len() == g,
            forall|h: int|
                0 <= h < g ==> {
                    let o = #[trigger] out@[h];
                    let merged = nothing && keys@[h] == source;
                    &&& o.target == keys@[h]
                    &&& o.rules@ == positions_of(targets@, keys@[h])
                    &&& o.with_nothing == merged
                    &&& o.description@ == joined(descriptions_at(descriptions@, o.rules@), " | "@) + (
                    if merged {
                        " | Nothing"@
                    } else {
                        Seq::<char>::empty()
                    })
                },
        decreases keys@.len() - g,
    {
        let key = keys[g];
        let rules = positions(key, targets);
        let mut description = join_at(descriptions, &rules, " | ");
        let merged = nothing && key == source;
        let ghost base = description@;
        if merged {
            description.append(" | Nothing");
        } else {
            proof {
                assert(description@ =~= base + Seq::<char>::empty());
            }
        }
        out.push(Outcome { target: key, rules, description, with_nothing: merged });
        g = g + 1;
    }
    if nothing && !contains_digest(&keys, source) {
        out.push(
            Outcome {
                target: source,
                rules: Vec::new(),
                description: String::from_str("Nothing"),
                with_nothing: true,
            },
        );
    }
    out
}

/// The composition of rules is a function of its inputs: any two results
/// for the same source, successors, descriptions and do-nothing flag agree
/// outcome by outcome.
pub proof fn lemma_composed_unique(
    source: u64,
    targets: Seq<u64>,
    descriptions: Seq<String>,
    nothing: bool,
    a: Seq<Outcome>,
    b: Seq<Outcome>,
)
    requires
        composed(source, targets, descriptions, nothing, a),
        composed(source, targets, descriptions, nothing, b),
    ensures
        a.len() == b.len(),
        forall|i: int|
            0 <= i < a.len() ==> a[i].target == b[i].target && a[i].rules@ == b[i].rules@
                && a[i].description@ == b[i].description@ && a[i].with_nothing == b[i].with_nothing,
{
    let keys = first_occurrences(targets);
    assert forall|i: int| 0 <= i < a.len() implies a[i].target == b[i].target && a[i].rules@
        == b[i].rules@ && a[i].description@ == b[i].description@ && a[i].with_nothing
        == b[i].with_nothing by {
        if i < keys.len() {
            let x = a[i];
            let y = b[i];
            assert(x.rules@ == positions_of(targets, keys[i]));
            assert(y.rules@ == positions_of(targets, keys[i]));
        }
    }
}

} // verus!
