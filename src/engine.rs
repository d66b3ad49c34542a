use crate::record::{
    contains_text, field_of, lower_of, lowercase, pair_view, text_contains, text_less, text_lt,
    lemma_text_lt_irreflexive, lemma_text_lt_total, lemma_text_lt_transitive, Record, RecordView,
};
use vstd::multiset::Multiset;
use vstd::prelude::*;

verus! {

/// The views of a sequence of records.
pub open spec fn views(s: Seq<Record>) -> Seq<RecordView> {
    s.map_values(|r: Record| r@)
}

/// The records of `s` that satisfy `p`, in their order in `s`.
pub open spec fn select(s: Seq<RecordView>, p: spec_fn(RecordView) -> bool) -> Seq<RecordView>
    decreases s.len(),
{
    if s.len() == 0 {
        Seq::empty()
    } else {
        let rest = select(s.drop_last(), p);
        if p(s.last()) {
            rest.push(s.last())
        } else {
            rest
        }
    }
}

/// The record has field `c.0` and its value, lower-cased, contains `c.1`
/// lower-cased.
pub open spec fn passes_criterion(r: RecordView, c: (Seq<char>, Seq<char>)) -> bool {
    match field_of(r, c.0) {
        Some(v) => contains_text(lower_of(v), lower_of(c.1)),
        None => false,
    }
}

/// The record passes every (field, pattern) pair of `criteria`.
pub open spec fn matches_criteria(r: RecordView, criteria: RecordView) -> bool {
    forall|i: int| 0 <= i < criteria.len() ==> #[trigger] passes_criterion(r, criteria[i])
}

pub open spec fn filter_pred(criteria: RecordView) -> spec_fn(RecordView) -> bool {
    |r: RecordView| matches_criteria(r, criteria)
}

/// One of `fields` is present in the record and its value, lower-cased,
/// contains `term` lower-cased.
pub open spec fn matches_term(r: RecordView, term: Seq<char>, fields: Seq<Seq<char>>) -> bool {
    exists|i: int|
        0 <= i < fields.len() && #[trigger] passes_criterion(r, (fields[i], term))
}

pub open spec fn search_pred(term: Seq<char>, fields: Seq<Seq<char>>) -> spec_fn(RecordView) -> bool {
    |r: RecordView| matches_term(r, term, fields)
}

pub open spec fn text_views(s: Seq<String>) -> Seq<Seq<char>> {
    s.map_values(|t: String| t@)
}

/// How many records of `s` hold exactly `v` in field `f`.
pub open spec fn count_value(s: Seq<RecordView>, f: Seq<char>, v: Seq<char>) -> nat
    decreases s.len(),
{
    if s.len() == 0 {
        0
    } else {
        count_value(s.drop_last(), f, v) + if field_of(s.last(), f) == Some(v) {
            1nat
        } else {
            0nat
        }
    }
}

/// The sort key of a record: its value of `f`, or empty text without one.
pub open spec fn sort_key(r: RecordView, f: Seq<char>) -> Seq<char> {
    match field_of(r, f) {
        Some(v) => v,
        None => Seq::empty(),
    }
}

/// `a` comes strictly before `b` in the requested direction.
pub open spec fn precedes(a: RecordView, b: RecordView, f: Seq<char>, ascending: bool) -> bool {
    if ascending {
        text_lt(sort_key(a, f), sort_key(b, f))
    } else {
        text_lt(sort_key(b, f), sort_key(a, f))
    }
}

/// No record of `s` comes strictly before one that stands ahead of it.
pub open spec fn sorted_by(s: Seq<RecordView>, f: Seq<char>, ascending: bool) -> bool {
    forall|i: int, j: int| 0 <= i < j < s.len() ==> !precedes(s[j], s[i], f, ascending)
}

/// The records whose sort key on `f` is `w`.
pub open spec fn key_is(f: Seq<char>, w: Seq<char>) -> spec_fn(RecordView) -> bool {
    |r: RecordView| sort_key(r, f) == w
}

proof fn lemma_select_insert(s: Seq<RecordView>, p: int, x: RecordView, q: spec_fn(RecordView) -> bool)
    requires
        0 <= p <= s.len(),
        q(x) ==> forall|k: int| p <= k < s.len() ==> !q(#[trigger] s[k]),
    ensures
        select(s.insert(p, x), q) == (if q(x) {
            select(s, q).push(x)
        } else {
            select(s, q)
        }),
    decreases s.len(),
{
    if p == s.len() {
        assert(s.insert(p, x).drop_last() =~= s);
    } else {
        assert(s.insert(p, x).drop_last() =~= s.drop_last().insert(p, x));
        assert(s.insert(p, x).last() == s.last());
        lemma_select_insert(s.drop_last(), p, x, q);
    }
}

proof fn lemma_select_step(s: Seq<RecordView>, p: spec_fn(RecordView) -> bool, i: int)
    requires
        0 <= i < s.len(),
    ensures
        select(s.take(i + 1), p) == (if p(s[i]) {
            select(s.take(i), p).push(s[i])
        } else {
            select(s.take(i), p)
        }),
{
    assert(s.take(i + 1).drop_last() =~= s.take(i));
}

fn record_matches(r: &Record, criteria: &Record) -> (b: bool)
    ensures
        b == matches_criteria(r@, criteria@),
{
    let pairs = criteria.pairs();
    let mut i: usize = 0;
    while i < pairs.len()
        invariant
            pairs@.map_values(|p: (String, String)| pair_view(p)) == criteria@,
            i <= pairs.len(),
            forall|j: int| 0 <= j < i ==> #[trigger] passes_criterion(r@, criteria@[j]),
        decreases pairs.len() - i,
    {
        assert(criteria@[i as int] == pair_view(pairs@[i as int]));
        match r.get(pairs[i].0.as_str()) {
            Some(v) => {
                let lv = lowercase(v.as_str());
                let lp = lowercase(pairs[i].1.as_str());
                if !text_contains(lv.as_str(), lp.as_str()) {
                    assert(!passes_criterion(r@, criteria@[i as int]));
                    return false;
                }
            },
            None => {
                assert(!passes_criterion(r@, criteria@[i as int]));
                return false;
            },
        }
        i = i + 1;
    }
    true
}

/// The records that pass every criterion, in their input order.
pub fn filtrar_registros(registros: &Vec<Record>, filtros: &Record) -> (r: Vec<Record>)
    ensures
        views(r@) == select(views(registros@), filter_pred(filtros@)),
{
    let ghost all = views(registros@);
    let ghost p = filter_pred(filtros@);
    let mut out: Vec<Record> = Vec::new();
    let mut i: usize = 0;
    while i < registros.len()
        invariant
            all == views(registros@),
            p == filter_pred(filtros@),
            i <= registros.len(),
            views(out@) == select(all.take(i as int), p),
        decreases registros.len() - i,
    {
        proof {
            lemma_select_step(all, p, i as int);
        }
        if record_matches(&registros[i], filtros) {
            let ghost before = out@;
            out.push(registros[i].duplicate());
            assert(views(out@) =~= views(before).push(all[i as int]));
        }
        i = i + 1;
    }
    assert(all.take(registros@.len() as int) =~= all);
    out
}

fn record_has_term(r: &Record, lower_term: &str, campos: &Vec<String>, term: Ghost<Seq<char>>) -> (b: bool)
    requires
        lower_term@ == lower_of(term@),
    ensures
        b == matches_term(r@, term@, text_views(campos@)),
{
    let mut i: usize = 0;
    while i < campos.len()
        invariant
            lower_term@ == lower_of(term@),
            i <= campos.len(),
            forall|j: int|
                0 <= j < i ==> !#[trigger] passes_criterion(r@, (text_views(campos@)[j], term@)),
        decreases campos.len() - i,
    {
        if let Some(v) = r.get(campos[i].as_str()) {
            let lv = lowercase(v.as_str());
            if text_contains(lv.as_str(), lower_term) {
                assert(passes_criterion(r@, (text_views(campos@)[i as int], term@)));
                return true;
            }
        }
        i = i + 1;
    }
    false
}

/// The records in which one of `campos` contains `termino`, ignoring case,
/// in their input order.
pub fn buscar_registros_avanzado(registros: &Vec<Record>, termino: &str, campos: &Vec<String>) -> (r:
    Vec<Record>)
    ensures
        views(r@) == select(views(registros@), search_pred(termino@, text_views(campos@))),
{
    let ghost all = views(registros@);
    let ghost p = search_pred(termino@, text_views(campos@));
    let lower_term = lowercase(termino);
    let mut out: Vec<Record> = Vec::new();
    let mut i: usize = 0;
    while i < registros.len()
        invariant
            all == views(registros@),
            p == search_pred(termino@, text_views(campos@)),
            lower_term@ == lower_of(termino@),
            i <= registros.len(),
            views(out@) == select(all.take(i as int), p),
        decreases registros.len() - i,
    {
        proof {
            lemma_select_step(all, p, i as int);
        }
        if record_has_term(&registros[i], lower_term.as_str(), campos, Ghost(termino@)) {
            let ghost before = out@;
            out.push(registros[i].duplicate());
            assert(views(out@) =~= views(before).push(all[i as int]));
        }
        i = i + 1;
    }
    assert(all.take(registros@.len() as int) =~= all);
    out
}

proof fn lemma_count_step(s: Seq<RecordView>, f: Seq<char>, w: Seq<char>, i: int)
    requires
        0 <= i < s.len(),
    ensures
        count_value(s.take(i + 1), f, w) == count_value(s.take(i), f, w) + if field_of(s[i], f)
            == Some(w) {
            1nat
        } else {
            0nat
        },
{
    assert(s.take(i + 1).drop_last() =~= s.take(i));
}

/// Each pair of `r` holds a value and the number of records of `s` that
/// hold it in field `f`.
pub open spec fn counts_exact(r: Seq<(String, usize)>, s: Seq<RecordView>, f: Seq<char>) -> bool {
    forall|a: int| 0 <= a < r.len() ==> r[a].1 == count_value(s, f, #[trigger] r[a].0@)
}

proof fn lemma_count_skip(s: Seq<RecordView>, f: Seq<char>, i: int)
    requires
        0 <= i < s.len(),
        field_of(s[i], f) is None,
    ensures
        forall|w: Seq<char>| #[trigger] count_value(s.take(i + 1), f, w) == count_value(s.take(i), f, w),
{
    assert forall|w: Seq<char>| #[trigger] count_value(s.take(i + 1), f, w) == count_value(s.take(i), f, w) by {
        lemma_count_step(s, f, w, i);
    }
}

fn find_key(out: &Vec<(String, usize)>, v: &String) -> (r: Option<usize>)
    ensures
        match r {
            Some(j) => j < out@.len() && out@[j as int].0@ == v@,
            None => forall|a: int| 0 <= a < out@.len() ==> out@[a].0@ != v@,
        },
{
    let mut j: usize = 0;
    while j < out.len()
        invariant
            j <= out.len(),
            forall|a: int| 0 <= a < j ==> out@[a].0@ != v@,
        decreases out.len() - j,
    {
        if out[j].0 == *v {
            return Some(j);
        }
        j = j + 1;
    }
    None
}

/// Counts, for each distinct value of field `campo`, the records that hold
/// it; records without the field count for nothing.
pub fn calcular_estadisticas(registros: &Vec<Record>, campo: &str) -> (r: Vec<(String, usize)>)
    ensures
        forall|a: int, b: int| 0 <= a < b < r@.len() ==> r@[a].0@ != r@[b].0@,
        counts_exact(r@, views(registros@), campo@),
        forall|a: int| 0 <= a < r@.len() ==> #[trigger] r@[a].1 > 0,
        forall|v: Seq<char>|
            #[trigger] count_value(views(registros@), campo@, v) > 0 ==> exists|a: int|
                0 <= a < r@.len() && r@[a].0@ == v,
{
    let ghost all = views(registros@);
    let mut out: Vec<(String, usize)> = Vec::new();
    let mut i: usize = 0;
    while i < registros.len()
        invariant
            all == views(registros@),
            i <= registros.len(),
            forall|a: int, b: int| 0 <= a < b < out@.len() ==> out@[a].0@ != out@[b].0@,
            counts_exact(out@, all.take(i as int), campo@),
            forall|a: int| 0 <= a < out@.len() ==> 0 < #[trigger] out@[a].1 <= i,
            forall|v: Seq<char>|
                #[trigger] count_value(all.take(i as int), campo@, v) > 0 ==> exists|a: int|
                    0 <= a < out@.len() && out@[a].0@ == v,
        decreases registros.len() - i,
    {
        let ghost prev = out@;
        let got = registros[i].get(campo);
        if let Some(v) = got {
            let found = find_key(&out, v);
            if let Some(j) = found {
                let k = out[j].0.clone();
                let c = out[j].1 + 1;
                out.set(j, (k, c));
                assert forall|a: int| 0 <= a < out@.len() implies out@[a].1 > 0 && out@[a].1 <= i
                    + 1 && out@[a].1 == count_value(
                    all.take(i + 1),
                    campo@,
                    #[trigger] out@[a].0@,
                ) by {
                    lemma_count_step(all, campo@, out@[a].0@, i as int);
                    if a != j {
                        assert(out@[a] == prev[a]);
                    }
                }
                assert(counts_exact(out@, all.take(i + 1), campo@));
                assert forall|w: Seq<char>| #[trigger]
                    count_value(all.take(i + 1), campo@, w) > 0 implies exists|a: int|
                    0 <= a < out@.len() && out@[a].0@ == w by {
                    lemma_count_step(all, campo@, w, i as int);
                    if w != v@ {
                        let a = choose|a: int| 0 <= a < prev.len() && prev[a].0@ == w;
                        assert(out@[a].0@ == w);
                    } else {
                        assert(out@[j as int].0@ == w);
                    }
                }
            } else {
                assert(count_value(all.take(i as int), campo@, v@) == 0) by {
                    if count_value(all.take(i as int), campo@, v@) > 0 {
                        let a = choose|a: int| 0 <= a < prev.len() && prev[a].0@ == v@;
                        assert(out@[a].0@ == v@);
                    }
                }
                out.push((v.clone(), 1));
                assert forall|a: int| 0 <= a < out@.len() implies out@[a].1 > 0 && out@[a].1 <= i
                    + 1 && out@[a].1 == count_value(
                    all.take(i + 1),
                    campo@,
                    #[trigger] out@[a].0@,
                ) by {
                    lemma_count_step(all, campo@, out@[a].0@, i as int);
                    if a < prev.len() {
                        assert(out@[a] == prev[a]);
                    }
                }
                assert(counts_exact(out@, all.take(i + 1), campo@));
                assert forall|w: Seq<char>| #[trigger]
                    count_value(all.take(i + 1), campo@, w) > 0 implies exists|a: int|
                    0 <= a < out@.len() && out@[a].0@ == w by {
                    lemma_count_step(all, campo@, w, i as int);
                    if w != v@ {
                        let a = choose|a: int| 0 <= a < prev.len() && prev[a].0@ == w;
                        assert(out@[a].0@ == w);
                    } else {
                        assert(out@[prev.len() as int].0@ == w);
                    }
                }
            }
        } else {
            proof {
                lemma_count_skip(all, campo@, i as int);
            }
            assert forall|a: int| 0 <= a < out@.len() implies out@[a].1 > 0 && out@[a].1
                == count_value(all.take(i + 1), campo@, #[trigger] out@[a].0@) by {
                let w = out@[a].0@;
                assert(count_value(all.take(i + 1), campo@, w) == count_value(all.take(i as int), campo@, w));
                assert(out@[a].1 == count_value(all.take(i as int), campo@, w));
            }
            assert(counts_exact(out@, all.take(i + 1), campo@));
        }
        i = i + 1;
    }
    assert(all.take(registros@.len() as int) =~= all);
    assert forall|a: int| 0 <= a < out@.len() implies out@[a].1 > 0 && out@[a].1 == count_value(
        views(registros@),
        campo@,
        #[trigger] out@[a].0@,
    ) by {
        assert(count_value(all.take(registros@.len() as int), campo@, out@[a].0@) == out@[a].1);
    }
    out
}

proof fn lemma_precedes_irreflexive(a: RecordView, f: Seq<char>, ascending: bool)
    ensures
        !precedes(a, a, f, ascending),
{
    lemma_text_lt_irreflexive(sort_key(a, f));
}

proof fn lemma_precedes_transitive(
    a: RecordView,
    b: RecordView,
    c: RecordView,
    f: Seq<char>,
    ascending: bool,
)
    requires
        precedes(a, b, f, ascending),
        precedes(b, c, f, ascending),
    ensures
        precedes(a, c, f, ascending),
{
    if ascending {
        lemma_text_lt_transitive(sort_key(a, f), sort_key(b, f), sort_key(c, f));
    } else {
        lemma_text_lt_transitive(sort_key(c, f), sort_key(b, f), sort_key(a, f));
    }
}

fn record_precedes(a: &Record, b: &Record, campo: &str, ascendente: bool) -> (r: bool)
    ensures
        r == precedes(a@, b@, campo@, ascendente),
{
    let empty = String::new();
    let ka: &str = match a.get(campo) {
        Some(v) => v.as_str(),
        None => empty.as_str(),
    };
    let kb: &str = match b.get(campo) {
        Some(v) => v.as_str(),
        None => empty.as_str(),
    };
    if ascendente {
        text_less(ka, kb)
    } else {
        text_less(kb, ka)
    }
}

fn insert_position(out: &Vec<Record>, x: &Record, campo: &str, ascendente: bool) -> (p: usize)
    ensures
        p <= out@.len(),
        forall|k: int| 0 <= k < p ==> !precedes(x@, #[trigger] out@[k]@, campo@, ascendente),
        p < out@.len() ==> precedes(x@, out@[p as int]@, campo@, ascendente),
{
    let mut p: usize = 0;
    while p < out.len()
        invariant
            p <= out.len(),
            forall|k: int| 0 <= k < p ==> !precedes(x@, #[trigger] out@[k]@, campo@, ascendente),
        decreases out.len() - p,
    {
        if record_precedes(x, &out[p], campo, ascendente) {
            return p;
        }
        p = p + 1;
    }
    p
}

/// The records reordered by their value of `campo` (empty text where it is
/// missing), ascending or descending; records with equal keys keep their
/// input order.
pub fn ordenar_registros(registros: Vec<Record>, campo: &str, ascendente: bool) -> (r: Vec<
    Record,
>)
    ensures
        sorted_by(views(r@), campo@, ascendente),
        r@.to_multiset() == registros@.to_multiset(),
        forall|w: Seq<char>|
            select(views(r@), #[trigger] key_is(campo@, w)) == select(views(registros@), key_is(campo@, w)),
{
    broadcast use vstd::multiset::group_multiset_axioms;
    broadcast use vstd::multiset::group_multiset_properties;
    broadcast use vstd::seq_lib::group_to_multiset_ensures;

    let ghost whole = registros@.to_multiset();
    let ghost orig = registros@;
    let mut rest = registros;
    let mut out: Vec<Record> = Vec::new();
    while rest.len() > 0
        invariant
            out@.to_multiset().add(rest@.to_multiset()) == whole,
            sorted_by(views(out@), campo@, ascendente),
            rest@.len() <= orig.len(),
            rest@ == orig.subrange(orig.len() - rest@.len(), orig.len() as int),
            forall|w: Seq<char>|
                select(views(out@), #[trigger] key_is(campo@, w)) == select(
                    views(orig).take(orig.len() - rest@.len()),
                    key_is(campo@, w),
                ),
        decreases rest.len(),
    {
        let ghost c = orig.len() - rest@.len();
        let ghost rest0 = rest@;
        let x = rest.remove(0);
        proof {
            vstd::seq_lib::to_multiset_remove(rest0, 0);
            rest0.to_multiset_ensures();
        }
        let p = insert_position(&out, &x, campo, ascendente);
        let ghost old_out = out@;
        let ghost xv = x@;
        out.insert(p, x);
        proof {
            vstd::seq_lib::to_multiset_insert(old_out, p as int, out@[p as int]);
            assert(out@ == old_out.insert(p as int, out@[p as int]));
            assert(out@.to_multiset().add(rest@.to_multiset()) =~= whole);
            assert(rest@ =~= orig.subrange(c + 1, orig.len() as int));
            assert(xv == views(orig)[c]);
            assert forall|w: Seq<char>|
                select(views(out@), #[trigger] key_is(campo@, w)) == select(
                    views(orig).take(c + 1),
                    key_is(campo@, w),
                ) by {
                let q = key_is(campo@, w);
                lemma_select_step(views(orig), q, c);
                assert(views(out@) =~= views(old_out).insert(p as int, xv));
                if q(xv) {
                    assert forall|k: int| p <= k < views(old_out).len() implies !q(
                        #[trigger] views(old_out)[k],
                    ) by {
                        let olds = views(old_out);
                        assert(precedes(xv, olds[p as int], campo@, ascendente));
                        if k > p {
                            assert(!precedes(olds[k], olds[p as int], campo@, ascendente));
                            if ascendente {
                                lemma_text_lt_total(sort_key(olds[k], campo@), sort_key(olds[p as int], campo@));
                                if text_lt(sort_key(olds[p as int], campo@), sort_key(olds[k], campo@)) {
                                    lemma_text_lt_transitive(sort_key(xv, campo@), sort_key(olds[p as int], campo@), sort_key(olds[k], campo@));
                                }
                            } else {
                                lemma_text_lt_total(sort_key(olds[k], campo@), sort_key(olds[p as int], campo@));
                                if text_lt(sort_key(olds[k], campo@), sort_key(olds[p as int], campo@)) {
                                    lemma_text_lt_transitive(sort_key(olds[k], campo@), sort_key(olds[p as int], campo@), sort_key(xv, campo@));
                                }
                            }
                            lemma_precedes_irreflexive(olds[k], campo@, ascendente);
                        } else {
                            lemma_precedes_irreflexive(olds[k], campo@, ascendente);
                        }
                    }
                }
                lemma_select_insert(views(old_out), p as int, xv, q);
            }
            let vs = views(out@);
            let olds = views(old_out);
            assert(vs =~= olds.insert(p as int, xv));
            assert forall|a: int, b: int| 0 <= a < b < vs.len() implies !precedes(
                vs[b],
                vs[a],
                campo@,
                ascendente,
            ) by {
                if a == p {
                    assert(vs[b] == olds[b - 1]);
                    assert(precedes(xv, olds[p as int], campo@, ascendente));
                    if precedes(vs[b], xv, campo@, ascendente) {
                        lemma_precedes_transitive(
                            vs[b],
                            xv,
                            olds[p as int],
                            campo@,
                            ascendente,
                        );
                        if b - 1 == p {
                            lemma_precedes_irreflexive(olds[p as int], campo@, ascendente);
                        } else {
                            assert(!precedes(olds[b - 1], olds[p as int], campo@, ascendente));
                        }
                    }
                } else if b == p {
                    assert(vs[a] == olds[a] && olds[a] == old_out[a]@);
                    assert(!precedes(xv, old_out[a]@, campo@, ascendente));
                } else {
                    let a0 = if a < p { a } else { a - 1 };
                    let b0 = if b < p { b } else { b - 1 };
                    assert(vs[a] == olds[a0] && vs[b] == olds[b0]);
                }
            }
        }
    }
    assert(rest@.to_multiset() =~= Multiset::empty());
    assert(views(orig).take(orig.len() as int) =~= views(orig));
    assert(out@.to_multiset() =~= whole);
    out
}

proof fn lemma_select_all_pass(s: Seq<RecordView>, p: spec_fn(RecordView) -> bool)
    ensures
        forall|i: int| 0 <= i < select(s, p).len() ==> p(#[trigger] select(s, p)[i]),
    decreases s.len(),
{
    if s.len() > 0 {
        lemma_select_all_pass(s.drop_last(), p);
        let rest = select(s.drop_last(), p);
        assert forall|i: int| 0 <= i < select(s, p).len() implies p(#[trigger] select(s, p)[i]) by {
            if i < rest.len() {
                assert(select(s, p)[i] == rest[i]);
            }
        }
    }
}

proof fn lemma_select_keeps_passing(s: Seq<RecordView>, p: spec_fn(RecordView) -> bool)
    requires
        forall|i: int| 0 <= i < s.len() ==> p(#[trigger] s[i]),
    ensures
        select(s, p) == s,
    decreases s.len(),
{
    if s.len() > 0 {
        lemma_select_keeps_passing(s.drop_last(), p);
        assert(s.drop_last().push(s.last()) =~= s);
    }
}

proof fn lemma_select_only_passing(s: Seq<RecordView>, p: spec_fn(RecordView) -> bool, r: RecordView)
    requires
        !p(r),
    ensures
        !select(s, p).contains(r),
{
    lemma_select_all_pass(s, p);
}

/// Filtering the result of a filter again with the same criteria changes
/// nothing.
pub proof fn lemma_filter_idempotent(s: Seq<RecordView>, criteria: RecordView)
    ensures
        select(select(s, filter_pred(criteria)), filter_pred(criteria)) == select(
            s,
            filter_pred(criteria),
        ),
{
    lemma_select_all_pass(s, filter_pred(criteria));
    lemma_select_keeps_passing(select(s, filter_pred(criteria)), filter_pred(criteria));
}

/// Filtering with no criteria keeps every record, in order.
pub proof fn lemma_filter_empty_criteria(s: Seq<RecordView>)
    ensures
        select(s, filter_pred(Seq::empty())) == s,
{
    lemma_select_keeps_passing(s, filter_pred(Seq::empty()));
}

/// A record that lacks one of the filtered fields is never in the result,
/// whatever the other criteria say.
pub proof fn lemma_filter_missing_field(s: Seq<RecordView>, criteria: RecordView, r: RecordView, j: int)
    requires
        0 <= j < criteria.len(),
        field_of(r, criteria[j].0) is None,
    ensures
        !select(s, filter_pred(criteria)).contains(r),
{
    assert(!passes_criterion(r, criteria[j]));
    lemma_select_only_passing(s, filter_pred(criteria), r);
}

/// Searching with no fields finds nothing.
pub proof fn lemma_search_no_fields(s: Seq<RecordView>, term: Seq<char>)
    ensures
        select(s, search_pred(term, Seq::empty())) == Seq::<RecordView>::empty(),
    decreases s.len(),
{
    if s.len() > 0 {
        lemma_search_no_fields(s.drop_last(), term);
    }
}

} // verus!
