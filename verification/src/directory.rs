//! What the data directory holds: one file for each generation, named by
//! the generation's identifier.

use vstd::prelude::*;
use vstd::string::*;
use crate::digits::{
    all_digits, chars_of, digits_of, is_digit, lemma_digits_of, parse_decimal, render_decimal,
    value_within,
};
use crate::log::{ascending, views, Generation, GenerationView};

verus! {

/// What the data directory holds when the store is opened.
#[derive(Debug)]
pub struct DirectoryImage {
    /// The path of the directory, for error messages.
    pub path: String,
    /// Whether the path exists and is a directory.
    pub is_directory: bool,
    /// The generation files found, in any order.
    pub generations: Vec<Generation>,
}

/// The name of the file that holds the generation `id`: the identifier in
/// decimal digits, then `.log`.
pub open spec fn file_name_of(id: u64) -> Seq<char> {
    digits_of(id as nat) + ".log"@
}

/// The name of the file that holds the generation `id`.
pub fn generation_file_name(id: u64) -> (name: String)
    ensures
        name@ == file_name_of(id),
{
    render_decimal(id).concat(".log")
}

/// The identifier of the generation that a file of the name `name` holds,
/// or `None` where no generation has a file of that name.
pub fn generation_of(name: &str) -> (r: Option<u64>)
    ensures
        match r {
            Some(id) => name@ == file_name_of(id),
            None => forall|id: u64| name@ != #[trigger] file_name_of(id),
        },
{
    let chars = chars_of(name);
    let mut k: usize = 0;
    assert(chars@.subrange(0, 0) =~= Seq::<char>::empty());
    while k < chars.len() && 48 <= chars[k] as u32 && chars[k] as u32 <= 57
        invariant
            0 <= k <= chars.len(),
            all_digits(chars@.subrange(0, k as int)),
        decreases chars.len() - k,
    {
        proof {
            let more = chars@.subrange(0, k + 1);
            assert forall|i: int| 0 <= i < more.len() implies is_digit(#[trigger] more[i]) by {
                if i < k {
                    assert(more[i] == chars@.subrange(0, k as int)[i]);
                }
            }
        }
        k = k + 1;
    }
    match parse_decimal(&chars, 0, k, u64::MAX) {
        None => {
            proof {
                assert forall|id: u64| name@ != #[trigger] file_name_of(id) by {
                    if name@ == file_name_of(id) {
                        lemma_file_name_digits(id, name@, k as int);
                    }
                }
            }
            None
        },
        Some(id) => {
            let rendered = generation_file_name(id);
            if rendered == name.to_owned() {
                Some(id)
            } else {
                proof {
                    assert forall|other: u64| name@ != #[trigger] file_name_of(other) by {
                        if name@ == file_name_of(other) {
                            lemma_file_name_digits(other, name@, k as int);
                        }
                    }
                }
                None
            }
        },
    }
}

/// Whether no two of the generations share an identifier.
pub open spec fn distinct_ids(gens: Seq<GenerationView>) -> bool {
    forall|i: int, j: int| 0 <= i < j < gens.len() ==> gens[i].id != gens[j].id
}

/// Whether `sorted` holds the generations of `found`, each once, in ascending
/// order of their identifiers.
pub open spec fn arranged(found: Seq<GenerationView>, sorted: Seq<GenerationView>) -> bool {
    &&& ascending(sorted)
    &&& sorted.len() == found.len()
    &&& forall|gen: GenerationView| sorted.contains(gen) <==> found.contains(gen)
}

/// Puts the generations in ascending order of their identifiers. Where two
/// of them share an identifier there is no such order, and the result is
/// `None`.
pub fn arrange(found: Vec<Generation>) -> (r: Option<Vec<Generation>>)
    ensures
        match r {
            Some(sorted) => distinct_ids(views(found@)) && arranged(views(found@), views(sorted@)),
            None => !distinct_ids(views(found@)),
        },
{
    let ghost all = views(found@);
    let mut rest = found;
    let mut sorted: Vec<Generation> = Vec::new();
    let ghost mut origin: Seq<int> = Seq::empty();
    while rest.len() > 0
        invariant
            all == views(found@),
            views(rest@) =~= all.subrange(0, rest.len() as int),
            sorted.len() + rest.len() == all.len(),
            origin.len() == sorted.len(),
            forall|q: int|
                0 <= q < sorted.len() ==> rest.len() <= #[trigger] origin[q] < all.len()
                    && sorted@[q]@ == all[origin[q]],
            forall|q1: int, q2: int|
                0 <= q1 < q2 < sorted.len() ==> #[trigger] origin[q1] != #[trigger] origin[q2],
            forall|m: int| rest.len() <= m < all.len() ==> #[trigger] names(origin, m),
            ascending(views(sorted@)),
        decreases rest.len(),
    {
        let ghost n = rest.len() - 1;
        let ghost before = sorted@;
        let ghost before_origin = origin;
        let ghost rest_before = rest@;
        let gen = match rest.pop() {
            Some(gen) => gen,
            None => {
                return None;
            },
        };
        assert(gen@ == all[n]) by {
            assert(views(rest_before)[n] == all.subrange(0, n + 1)[n]);
        }
        let mut p: usize = 0;
        while p < sorted.len() && sorted[p].id < gen.id
            invariant
                0 <= p <= sorted.len(),
                forall|q: int| 0 <= q < p ==> sorted@[q].id < gen.id,
            decreases sorted.len() - p,
        {
            p = p + 1;
        }
        if p < sorted.len() && sorted[p].id == gen.id {
            proof {
                let m = origin[p as int];
                assert(all[m].id == all[n].id && n < m);
            }
            return None;
        }
        sorted.insert(p, gen);
        proof {
            origin = origin.insert(p as int, n);
            assert(views(sorted@) =~= views(before).insert(p as int, gen@));
            assert forall|i: int, j: int| 0 <= i < j < sorted.len() implies views(sorted@)[i].id
                < views(sorted@)[j].id by {
                let old_i = if i < p { i } else { i - 1 };
                let old_j = if j < p { j } else { j - 1 };
                if i != p && j != p {
                    assert(views(before)[old_i].id < views(before)[old_j].id);
                } else if i == p {
                    assert(views(before)[old_j] == before[old_j]@);
                    if old_j > p {
                        assert(views(before)[p as int].id < views(before)[old_j].id);
                    }
                } else {
                    assert(views(before)[old_i] == before[old_i]@);
                }
            }
            assert forall|q: int| 0 <= q < sorted.len() implies rest.len() <= #[trigger] origin[q]
                < all.len() && sorted@[q]@ == all[origin[q]] by {
                if q < p {
                    assert(origin[q] == before_origin[q]);
                } else if q > p {
                    assert(origin[q] == before_origin[q - 1]);
                }
            }
            assert forall|q1: int, q2: int|
                0 <= q1 < q2 < sorted.len() implies #[trigger] origin[q1] != #[trigger] origin[q2] by {
                let o1 = if q1 < p { q1 } else { q1 - 1 };
                let o2 = if q2 < p { q2 } else { q2 - 1 };
                if q1 != p && q2 != p {
                    assert(before_origin[o1] != before_origin[o2]);
                } else if q1 == p {
                    assert(origin[q2] == before_origin[o2]);
                } else {
                    assert(origin[q1] == before_origin[o1]);
                }
            }
            assert forall|m: int| rest.len() <= m < all.len() implies #[trigger] names(
                origin,
                m,
            ) by {
                if m == n {
                    assert(origin[p as int] == m);
                } else {
                    assert(names(before_origin, m));
                    let q = choose|q: int| 0 <= q < before_origin.len() && before_origin[q] == m;
                    if q < p {
                        assert(origin[q] == m);
                    } else {
                        assert(origin[q + 1] == m);
                    }
                }
            }
        }
    }
    proof {
        let arranged_views = views(sorted@);
        assert forall|i: int, j: int| 0 <= i < j < all.len() implies all[i].id != all[j].id by {
            assert(names(origin, i) && names(origin, j));
            let qi = choose|q: int| 0 <= q < origin.len() && origin[q] == i;
            let qj = choose|q: int| 0 <= q < origin.len() && origin[q] == j;
            assert(arranged_views[qi] == all[i]);
            assert(arranged_views[qj] == all[j]);
            if qi < qj {
                assert(arranged_views[qi].id < arranged_views[qj].id);
            } else if qj < qi {
                assert(arranged_views[qj].id < arranged_views[qi].id);
            }
        }
        assert forall|gen: GenerationView| arranged_views.contains(gen) <==> all.contains(
            gen,
        ) by {
            if arranged_views.contains(gen) {
                let q = choose|q: int| 0 <= q < arranged_views.len() && arranged_views[q] == gen;
                assert(all[origin[q]] == gen);
            }
            if all.contains(gen) {
                let m = choose|m: int| 0 <= m < all.len() && all[m] == gen;
                assert(names(origin, m));
                let q = choose|q: int| 0 <= q < origin.len() && origin[q] == m;
                assert(arranged_views[q] == gen);
            }
        }
    }
    Some(sorted)
}

/// Whether `origin` names the position `m`.
pub open spec fn names(origin: Seq<int>, m: int) -> bool {
    exists|q: int| 0 <= q < origin.len() && origin[q] == m
}

/// The digits that a file name begins with are the digits of the identifier
/// that the name stands for.
pub proof fn lemma_file_name_digits(id: u64, name: Seq<char>, k: int)
    requires
        name == file_name_of(id),
        0 <= k <= name.len(),
        all_digits(name.subrange(0, k)),
        k == name.len() || !is_digit(name[k]),
    ensures
        name.subrange(0, k) == digits_of(id as nat),
        value_within(name.subrange(0, k), u64::MAX as nat) == Some(id as nat),
{
    reveal_strlit(".log");
    let digits = digits_of(id as nat);
    lemma_digits_of(id as nat);
    let n = digits.len() as int;
    assert(name[n] == '.');
    if k > n {
        assert(name.subrange(0, k)[n] == name[n]);
        assert(is_digit(name.subrange(0, k)[n]));
    }
    if k < n {
        assert(name[k] == digits[k]);
    }
    assert(name.subrange(0, k) =~= digits);
}

/// There is one way only to put generations in ascending order.
pub proof fn lemma_ascending_unique(a: Seq<GenerationView>, b: Seq<GenerationView>)
    requires
        ascending(a),
        ascending(b),
        a.len() == b.len(),
        forall|gen: GenerationView| a.contains(gen) <==> b.contains(gen),
    ensures
        a == b,
    decreases a.len(),
{
    if a.len() > 0 {
        let n = a.len() - 1;
        assert(a.contains(a[n]));
        assert(b.contains(a[n]));
        let j = choose|j: int| 0 <= j < b.len() && b[j] == a[n];
        assert(b.contains(b[n]));
        assert(a.contains(b[n]));
        let i = choose|i: int| 0 <= i < a.len() && a[i] == b[n];
        if j < n {
            assert(b[j].id < b[n].id);
            if i < n {
                assert(a[i].id < a[n].id);
            }
        }
        assert(j == n);
        let shorter_a = a.drop_last();
        let shorter_b = b.drop_last();
        assert forall|gen: GenerationView| shorter_a.contains(gen) <==> shorter_b.contains(
            gen,
        ) by {
            if shorter_a.contains(gen) {
                let p = choose|p: int| 0 <= p < shorter_a.len() && shorter_a[p] == gen;
                assert(a[p] == gen);
                assert(a.contains(gen));
                assert(b.contains(gen));
                let q = choose|q: int| 0 <= q < b.len() && b[q] == gen;
                assert(a[p].id < a[n].id);
                assert(q < n);
                assert(shorter_b[q] == gen);
            }
            if shorter_b.contains(gen) {
                let q = choose|q: int| 0 <= q < shorter_b.len() && shorter_b[q] == gen;
                assert(b[q] == gen);
                assert(b.contains(gen));
                assert(a.contains(gen));
                let p = choose|p: int| 0 <= p < a.len() && a[p] == gen;
                assert(b[q].id < b[n].id);
                assert(p < n);
                assert(shorter_a[p] == gen);
            }
        }
        lemma_ascending_unique(shorter_a, shorter_b);
        assert(a =~= shorter_a.push(a[n]));
        assert(b =~= shorter_b.push(b[n]));
    } else {
        assert(a =~= b);
    }
}

} // verus!
