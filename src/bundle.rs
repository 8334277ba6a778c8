use vstd::prelude::*;
use crate::decoder::{Observation, ObservedValue};

verus! {

/// The numeric values recorded under one description, in decoding order,
/// with the unit of the first of them.
pub struct Series {
    pub description: String,
    pub unit: String,
    pub values: Vec<(i128, i128)>,
}

/// The value of `o` as `(numerator, scale)`, if it is numeric.
pub open spec fn numeric_value(o: Observation) -> Option<(i128, i128)> {
    match o.value {
        ObservedValue::Number { numerator, scale } => Some((numerator, scale)),
        ObservedValue::Text(_) => None,
    }
}

/// The numeric values of `obs` recorded under description `d`, in order.
pub open spec fn values_for(obs: Seq<Observation>, d: Seq<char>) -> Seq<(i128, i128)>
    decreases obs.len(),
{
    if obs.len() == 0 {
        seq![]
    } else {
        let before = values_for(obs.drop_last(), d);
        match numeric_value(obs.last()) {
            Some(v) => if obs.last().description@ == d { before.push(v) } else { before },
            None => before,
        }
    }
}

/// The descriptions of the numeric observations of `obs`, each once, in the
/// order of their first appearance.
pub open spec fn numeric_descriptions(obs: Seq<Observation>) -> Seq<Seq<char>>
    decreases obs.len(),
{
    if obs.len() == 0 {
        seq![]
    } else {
        let before = numeric_descriptions(obs.drop_last());
        if numeric_value(obs.last()) is Some && !before.contains(obs.last().description@) {
            before.push(obs.last().description@)
        } else {
            before
        }
    }
}

/// The unit of the first numeric observation of `obs` under description `d`.
pub open spec fn first_unit(obs: Seq<Observation>, d: Seq<char>) -> Seq<char>
    decreases obs.len(),
{
    if obs.len() == 0 {
        seq![]
    } else if numeric_value(obs.last()) is Some && obs.last().description@ == d
        && !numeric_descriptions(obs.drop_last()).contains(d) {
        obs.last().unit@
    } else {
        first_unit(obs.drop_last(), d)
    }
}

/// `r` is the bundle of `obs`: one series per description, in order of first
/// appearance, with all its values and its first unit.
pub open spec fn is_bundle_of(r: Seq<Series>, obs: Seq<Observation>) -> bool {
    let ds = numeric_descriptions(obs);
    &&& r.len() == ds.len()
    &&& forall|i: int| 0 <= i < r.len() ==> {
        &&& (#[trigger] r[i]).description@ == ds[i]
        &&& r[i].unit@ == first_unit(obs, ds[i])
        &&& r[i].values@ == values_for(obs, ds[i])
    }
}

proof fn lemma_values_for_absent(obs: Seq<Observation>, d: Seq<char>)
    requires
        !numeric_descriptions(obs).contains(d),
    ensures
        values_for(obs, d) == Seq::<(i128, i128)>::empty(),
    decreases obs.len(),
{
    if obs.len() > 0 {
        let before = numeric_descriptions(obs.drop_last());
        if before.contains(d) {
            let j = choose|j: int| 0 <= j < before.len() && before[j] == d;
            assert(numeric_descriptions(obs)[j] == d);
        }
        lemma_values_for_absent(obs.drop_last(), d);
        if numeric_value(obs.last()) is Some && obs.last().description@ == d {
            assert(numeric_descriptions(obs).last() == d);
        }
    }
}

/// Finds the series of description `d`.
fn find_series(out: &Vec<Series>, d: &String) -> (r: Option<usize>)
    ensures
        r matches Some(i) ==> i < out@.len() && out@[i as int].description@ == d@,
        r is None ==> forall|i: int| 0 <= i < out@.len() ==> out@[i].description@ != d@,
{
    let mut i: usize = 0;
    while i < out.len()
        invariant
            i <= out@.len(),
            forall|j: int| 0 <= j < i ==> out@[j].description@ != d@,
        decreases out@.len() - i,
    {
        if out[i].description == *d {
            return Some(i);
        }
        i = i + 1;
    }
    None
}

/// Groups the numeric observations by description (see `is_bundle_of`);
/// text observations are left out.
pub fn collect_series(obs: &Vec<Observation>) -> (r: Vec<Series>)
    ensures
        is_bundle_of(r@, obs@),
{
    let mut out: Vec<Series> = Vec::new();
    let mut k: usize = 0;
    while k < obs.len()
        invariant
            k <= obs@.len(),
            is_bundle_of(out@, obs@.subrange(0, k as int)),
        decreases obs@.len() - k,
    {
        let o = &obs[k];
        let ghost pre = obs@.subrange(0, k as int);
        let ghost cur = obs@.subrange(0, k + 1);
        assert(cur.drop_last() == pre);
        assert(cur.last() == *o);
        let ghost ds = numeric_descriptions(pre);
        match &o.value {
            ObservedValue::Number { numerator, scale } => {
                let v = (*numerator, *scale);
                match find_series(&out, &o.description) {
                    Some(i) => {
                        proof {
                            assert(ds[i as int] == o.description@);
                            assert(ds.contains(o.description@));
                            assert(numeric_descriptions(cur) == ds);
                        }
                        let ghost old_out = out@;
                        let mut s = out.remove(i);
                        s.values.push(v);
                        out.insert(i, s);
                        proof {
                            assert forall|j: int| 0 <= j < out@.len() implies {
                                &&& (#[trigger] out@[j]).description@ == ds[j]
                                &&& out@[j].unit@ == first_unit(cur, ds[j])
                                &&& out@[j].values@ == values_for(cur, ds[j])
                            } by {
                                if j != i {
                                    assert(out@[j] == old_out[j]);
                                    assert(ds[j] != o.description@) by {
                                        assert(old_out[j].description@ == ds[j]);
                                        assert(old_out[i as int].description@ == ds[i as int]);
                                        lemma_distinct(pre, j, i as int);
                                    }
                                }
                            }
                        }
                    },
                    None => {
                        proof {
                            assert(!ds.contains(o.description@)) by {
                                if ds.contains(o.description@) {
                                    let j = choose|j: int| 0 <= j < ds.len() && ds[j] == o.description@;
                                    assert(out@[j].description@ == ds[j]);
                                }
                            }
                            lemma_values_for_absent(pre, o.description@);
                        }
                        let mut values: Vec<(i128, i128)> = Vec::new();
                        values.push(v);
                        let s = Series { description: o.description.clone(), unit: o.unit.clone(), values };
                        let ghost old_out = out@;
                        out.push(s);
                        proof {
                            assert(numeric_descriptions(cur) == ds.push(o.description@));
                            assert forall|j: int| 0 <= j < out@.len() implies {
                                &&& (#[trigger] out@[j]).description@ == numeric_descriptions(cur)[j]
                                &&& out@[j].unit@ == first_unit(cur, numeric_descriptions(cur)[j])
                                &&& out@[j].values@ == values_for(cur, numeric_descriptions(cur)[j])
                            } by {
                                if j < old_out.len() {
                                    assert(out@[j] == old_out[j]);
                                    assert(ds[j] != o.description@) by {
                                        assert(ds.contains(ds[j]));
                                    }
                                } else {
                                    assert(values_for(cur, o.description@) =~= seq![v]);
                                }
                            }
                        }
                    },
                }
            },
            ObservedValue::Text(_) => {
                proof {
                    assert(numeric_descriptions(cur) == ds);
                }
            },
        }
        k = k + 1;
    }
    assert(obs@.subrange(0, obs@.len() as int) == obs@);
    out
}

proof fn lemma_distinct(obs: Seq<Observation>, a: int, b: int)
    requires
        0 <= a < numeric_descriptions(obs).len(),
        0 <= b < numeric_descriptions(obs).len(),
        a != b,
    ensures
        numeric_descriptions(obs)[a] != numeric_descriptions(obs)[b],
    decreases obs.len(),
{
    if obs.len() > 0 {
        let before = numeric_descriptions(obs.drop_last());
        if a < before.len() && b < before.len() {
            lemma_distinct(obs.drop_last(), a, b);
        } else if a == before.len() {
            assert(!before.contains(obs.last().description@));
            assert(before.contains(before[b]));
        } else {
            assert(!before.contains(obs.last().description@));
            assert(before.contains(before[a]));
        }
    }
}

} // verus!
