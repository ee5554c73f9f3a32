use vstd::prelude::*;

use vstd::arithmetic::div_mod::{lemma_div_denominator, lemma_fundamental_div_mod};

use crate::error::OfError;
use crate::parsing::{be_u32_at, be_u32_of};

verus! {

/// The most argument cells one phandle entry may carry.
pub const MAX_PHANDLE_ARGS: usize = 32;

/// The `n` big-endian cells at the start of `b`.
pub open spec fn cells_of(b: Seq<u8>, n: nat) -> Seq<u32> {
    Seq::new(n, |i: int| be_u32_of(b, 4 * i))
}

/// The argument cells of an entry whose phandle sits at the start of `list`,
/// when the entry has `n` of them.
pub open spec fn args_spec(list: Seq<u8>, n: nat) -> Result<Seq<u32>, OfError> {
    if n > MAX_PHANDLE_ARGS {
        Err(OfError::CapacityExceeded)
    } else if 4 + 4 * n > list.len() {
        Err(OfError::InsufficientBytes)
    } else {
        Ok(cells_of(list.skip(4), n))
    }
}

/// One step of the walk over a phandle list that starts at the start of
/// `list`: `Ok(None)` at the end of the list, else the phandle and its cells.
/// `cnt` gives, for each phandle, how many cells follow it, or why that is
/// unknown.
pub open spec fn step_spec(list: Seq<u8>, cnt: spec_fn(u32) -> Result<nat, OfError>) -> Result<
    Option<(u32, Seq<u32>)>,
    OfError,
> {
    if list.len() < 4 {
        Ok(None)
    } else {
        let ph = be_u32_of(list, 0);
        match cnt(ph) {
            Err(e) => Err(e),
            Ok(n) => match args_spec(list, n) {
                Err(e) => Err(e),
                Ok(args) => Ok(Some((ph, args))),
            },
        }
    }
}

/// The bytes an entry occupies.
pub open spec fn entry_len(args: Seq<u32>) -> nat {
    4 + 4 * args.len()
}

/// Every entry of the list, in order, or the first error met.
pub open spec fn drain_spec(list: Seq<u8>, cnt: spec_fn(u32) -> Result<nat, OfError>) -> Result<
    Seq<(u32, Seq<u32>)>,
    OfError,
>
    decreases list.len(),
{
    match step_spec(list, cnt) {
        Err(e) => Err(e),
        Ok(None) => Ok(Seq::empty()),
        Ok(Some((ph, args))) => match drain_spec(list.skip(entry_len(args) as int), cnt) {
            Err(e) => Err(e),
            Ok(rest) => Ok(seq![(ph, args)] + rest),
        },
    }
}

/// The entry at position `index`, starting fresh from the start of `list`;
/// `Ok(None)` when the list ends first.
pub open spec fn nth_spec(list: Seq<u8>, cnt: spec_fn(u32) -> Result<nat, OfError>, index: nat) -> Result<
    Option<(u32, Seq<u32>)>,
    OfError,
>
    decreases list.len(),
{
    match step_spec(list, cnt) {
        Err(e) => Err(e),
        Ok(None) => Ok(None),
        Ok(Some((ph, args))) => if index == 0 {
            Ok(Some((ph, args)))
        } else {
            nth_spec(list.skip(entry_len(args) as int), cnt, (index - 1) as nat)
        },
    }
}

/// The bytes that the entries `es` occupy.
pub open spec fn entries_len(es: Seq<(u32, Seq<u32>)>) -> nat
    decreases es.len(),
{
    if es.len() == 0 {
        0
    } else {
        entry_len(es[0].1) + entries_len(es.drop_first())
    }
}

proof fn lemma_entries_prefix(es: Seq<(u32, Seq<u32>)>, k: int)
    requires
        0 <= k <= es.len(),
    ensures
        entries_len(es.take(k)) <= entries_len(es),
    decreases es.len(),
{
    if k > 0 {
        assert(es.take(k)[0] == es[0]);
        assert(es.take(k).drop_first() =~= es.drop_first().take(k - 1));
        lemma_entries_prefix(es.drop_first(), k - 1);
    }
}

/// Walking a list step by step, each step starting where the entries before
/// it end, yields the entries the whole walk gives, one per step, and then
/// the end of the list: a list of `K` entries gives exactly `K`.
pub proof fn lemma_drain_steps(
    list: Seq<u8>,
    cnt: spec_fn(u32) -> Result<nat, OfError>,
    es: Seq<(u32, Seq<u32>)>,
)
    requires
        drain_spec(list, cnt) == Ok::<Seq<(u32, Seq<u32>)>, OfError>(es),
    ensures
        entries_len(es) <= list.len(),
        forall|k: int|
            0 <= k < es.len() ==> step_spec(list.skip(entries_len(#[trigger] es.take(k)) as int), cnt)
                == Ok::<Option<(u32, Seq<u32>)>, OfError>(Some(es[k])),
        step_spec(list.skip(entries_len(es) as int), cnt) == Ok::<Option<(u32, Seq<u32>)>, OfError>(None),
    decreases list.len(),
{
    match step_spec(list, cnt) {
        Ok(Some((ph, args))) => {
            let rest = list.skip(entry_len(args) as int);
            let t = es.drop_first();
            assert(es =~= seq![(ph, args)] + drain_spec(rest, cnt)->Ok_0);
            assert(t =~= drain_spec(rest, cnt)->Ok_0);
            lemma_drain_steps(rest, cnt, t);
            assert(rest.skip(entries_len(t) as int) =~= list.skip(entries_len(es) as int));
            assert forall|k: int| 0 <= k < es.len() implies step_spec(
                list.skip(entries_len(#[trigger] es.take(k)) as int),
                cnt,
            ) == Ok::<Option<(u32, Seq<u32>)>, OfError>(Some(es[k])) by {
                if k == 0 {
                    assert(es.take(0).len() == 0);
                    assert(list.skip(0) =~= list);
                } else {
                    let p = es.take(k);
                    assert(p[0] == es[0]);
                    assert(p.drop_first() =~= t.take(k - 1));
                    assert(entries_len(p) == entry_len(args) + entries_len(t.take(k - 1)));
                    lemma_entries_prefix(t, k - 1);
                    assert(rest.skip(entries_len(t.take(k - 1)) as int) =~= list.skip(entries_len(p) as int));
                    assert(t[k - 1] == es[k]);
                }
            }
        },
        _ => {
            assert(es.len() == 0);
            assert(list.skip(0) =~= list);
        },
    }
}

/// The four big-endian bytes of `v`.
pub open spec fn be_bytes(v: u32) -> Seq<u8> {
    seq![
        (v / 0x1000000) as u8,
        ((v / 0x10000) % 0x100) as u8,
        ((v / 0x100) % 0x100) as u8,
        (v % 0x100) as u8,
    ]
}

/// The cells of `s`, each as four big-endian bytes.
pub open spec fn encode_cells(s: Seq<u32>) -> Seq<u8>
    decreases s.len(),
{
    if s.len() == 0 {
        Seq::empty()
    } else {
        be_bytes(s[0]) + encode_cells(s.drop_first())
    }
}

/// The list property that holds the entries `es`, each a phandle and its cells.
pub open spec fn encode_list(es: Seq<(u32, Seq<u32>)>) -> Seq<u8>
    decreases es.len(),
{
    if es.len() == 0 {
        Seq::empty()
    } else {
        be_bytes(es[0].0) + encode_cells(es[0].1) + encode_list(es.drop_first())
    }
}

/// Whether `cnt` gives each phandle of `es` the number of cells that follow it there,
/// each within the bound.
pub open spec fn counts_agree(es: Seq<(u32, Seq<u32>)>, cnt: spec_fn(u32) -> Result<nat, OfError>) -> bool {
    forall|i: int|
        0 <= i < es.len() ==> #[trigger] cnt(es[i].0) == Ok::<nat, OfError>(es[i].1.len())
            && es[i].1.len() <= MAX_PHANDLE_ARGS
}

proof fn lemma_be_round_trip(v: u32, rest: Seq<u8>)
    ensures
        be_u32_of(be_bytes(v) + rest, 0) == v,
{
    let b = be_bytes(v) + rest;
    let a0 = v / 0x1000000;
    let a1 = (v / 0x10000) % 0x100;
    let a2 = (v / 0x100) % 0x100;
    let a3 = v % 0x100;
    assert(b[0] == a0 as u8 && b[1] == a1 as u8 && b[2] == a2 as u8 && b[3] == a3 as u8);
    let x = v as int;
    lemma_fundamental_div_mod(x, 0x100);
    lemma_fundamental_div_mod(x / 0x100, 0x100);
    lemma_fundamental_div_mod(x / 0x10000, 0x100);
    lemma_div_denominator(x, 0x100, 0x100);
    lemma_div_denominator(x, 0x10000, 0x100);
    assert(x / 0x1000000 < 0x100);
    assert(a0 * 0x1000000 + a1 * 0x10000 + a2 * 0x100 + a3 == v);
}

proof fn lemma_encode_cells_len(s: Seq<u32>)
    ensures
        encode_cells(s).len() == 4 * s.len(),
    decreases s.len(),
{
    if s.len() > 0 {
        lemma_encode_cells_len(s.drop_first());
    }
}

proof fn lemma_cells_round_trip(s: Seq<u32>, rest: Seq<u8>)
    ensures
        cells_of(encode_cells(s) + rest, s.len()) == s,
    decreases s.len(),
{
    if s.len() > 0 {
        let t = s.drop_first();
        lemma_cells_round_trip(t, rest);
        lemma_encode_cells_len(t);
        let b = encode_cells(s) + rest;
        let bt = encode_cells(t) + rest;
        assert(b == be_bytes(s[0]) + bt);
        assert forall|i: int| 0 <= i < s.len() implies be_u32_of(b, 4 * i) == s[i] by {
            if i == 0 {
                lemma_be_round_trip(s[0], bt);
            } else {
                assert(be_u32_of(b, 4 * i) == be_u32_of(bt, 4 * (i - 1)));
                assert(cells_of(bt, t.len())[i - 1] == t[i - 1]);
            }
        }
        assert(cells_of(b, s.len()) =~= s);
    }
}

proof fn lemma_step_encoded_head(es: Seq<(u32, Seq<u32>)>, cnt: spec_fn(u32) -> Result<nat, OfError>)
    requires
        counts_agree(es, cnt),
        es.len() > 0,
    ensures
        step_spec(encode_list(es), cnt) == Ok::<Option<(u32, Seq<u32>)>, OfError>(Some(es[0])),
        encode_list(es).skip(entry_len(es[0].1) as int) == encode_list(es.drop_first()),
        counts_agree(es.drop_first(), cnt),
{
    let l = encode_list(es);
    let (ph, args) = es[0];
    let t = es.drop_first();
    assert forall|i: int| 0 <= i < t.len() implies #[trigger] cnt(t[i].0) == Ok::<nat, OfError>(t[i].1.len())
        && t[i].1.len() <= MAX_PHANDLE_ARGS by {
        assert(t[i] == es[i + 1]);
    }
    lemma_encode_cells_len(args);
    let lt = encode_list(t);
    assert(cnt(es[0].0) == Ok::<nat, OfError>(es[0].1.len()));
    assert(l == be_bytes(ph) + (encode_cells(args) + lt));
    lemma_be_round_trip(ph, encode_cells(args) + lt);
    assert(l.skip(4) =~= encode_cells(args) + lt);
    lemma_cells_round_trip(args, lt);
    assert(args_spec(l, args.len()) == Ok::<Seq<u32>, OfError>(args));
    assert(l.skip(entry_len(args) as int) =~= lt);
}

/// A list built from the entries `es` gives back exactly those entries
/// when walked to its end, and nothing more after it, provided that the cell
/// count of each entry is what the lookup gives for its phandle.
pub proof fn lemma_drain_encoded_list(es: Seq<(u32, Seq<u32>)>, cnt: spec_fn(u32) -> Result<nat, OfError>)
    requires
        counts_agree(es, cnt),
    ensures
        drain_spec(encode_list(es), cnt) == Ok::<Seq<(u32, Seq<u32>)>, OfError>(es),
        step_spec(encode_list(es).skip(encode_list(es).len() as int), cnt) == Ok::<
            Option<(u32, Seq<u32>)>,
            OfError,
        >(None),
    decreases es.len(),
{
    let l = encode_list(es);
    let e: Seq<u8> = l.skip(l.len() as int);
    assert(step_spec(e, cnt) == Ok::<Option<(u32, Seq<u32>)>, OfError>(None)) by {
        assert(e.len() == 0);
    }
    if es.len() > 0 {
        let t = es.drop_first();
        lemma_step_encoded_head(es, cnt);
        lemma_drain_encoded_list(t, cnt);
        let lt = encode_list(t);
        let h = es[0];
        assert(drain_spec(l, cnt) == Ok::<Seq<(u32, Seq<u32>)>, OfError>(seq![h] + t)) by {
            assert(step_spec(l, cnt) == Ok::<Option<(u32, Seq<u32>)>, OfError>(Some(h)));
            assert(l.skip(entry_len(h.1) as int) == lt);
            assert(drain_spec(lt, cnt) == Ok::<Seq<(u32, Seq<u32>)>, OfError>(t));
        }
        assert(seq![h] + t =~= es);
    } else {
        assert(l.len() == 0);
        assert(step_spec(l, cnt) == Ok::<Option<(u32, Seq<u32>)>, OfError>(None));
        assert(es =~= Seq::<(u32, Seq<u32>)>::empty());
    }
}

/// Asking for an entry at or past the number of entries of a list built from
/// `es` finds the list's end: the answer is "absent", not an error.
pub proof fn lemma_nth_past_end(es: Seq<(u32, Seq<u32>)>, cnt: spec_fn(u32) -> Result<nat, OfError>, index: nat)
    requires
        counts_agree(es, cnt),
        index >= es.len(),
    ensures
        nth_spec(encode_list(es), cnt, index) == Ok::<Option<(u32, Seq<u32>)>, OfError>(None),
    decreases es.len(),
{
    if es.len() > 0 {
        lemma_step_encoded_head(es, cnt);
        lemma_nth_past_end(es.drop_first(), cnt, (index - 1) as nat);
    }
}

/// One step of the walk when the lookup for the phandle at the start of
/// `list` gave `count`.
pub open spec fn step_with(list: Seq<u8>, count: Result<nat, OfError>) -> Result<
    Option<(u32, Seq<u32>)>,
    OfError,
> {
    step_spec(list, |ph: u32| count)
}

/// The entry at position `index` of a walk from the start of `list` in which
/// the `k`-th step's lookup gave `counts[k]`; `Ok(None)` when the list, or
/// the record of lookups, ends first.
pub open spec fn walk_with(list: Seq<u8>, counts: Seq<Result<nat, OfError>>, index: nat) -> Result<
    Option<(u32, Seq<u32>)>,
    OfError,
>
    decreases counts.len(),
{
    if counts.len() == 0 {
        Ok(None)
    } else {
        match step_with(list, counts[0]) {
            Err(e) => Err(e),
            Ok(None) => Ok(None),
            Ok(Some((ph, args))) => if index == 0 {
                Ok(Some((ph, args)))
            } else {
                walk_with(list.skip(entry_len(args) as int), counts.drop_first(), (index - 1) as nat)
            },
        }
    }
}

/// Where a walk from the start of `list` stands after one successful step
/// for each of `counts`; `None` when one of those steps does not yield an entry.
pub open spec fn advance(list: Seq<u8>, counts: Seq<Result<nat, OfError>>) -> Option<nat>
    decreases counts.len(),
{
    if counts.len() == 0 {
        Some(0)
    } else {
        match step_with(list, counts[0]) {
            Ok(Some((ph, args))) => match advance(list.skip(entry_len(args) as int), counts.drop_first()) {
                Some(o) => Some(o + entry_len(args)),
                None => None,
            },
            _ => None,
        }
    }
}

/// After successful steps for `prefix`, the walk's answer at a position not
/// before them is that of the next step, when that step ends the walk or is
/// the one asked for.
pub proof fn lemma_walk_last_step(
    list: Seq<u8>,
    prefix: Seq<Result<nat, OfError>>,
    c: Result<nat, OfError>,
    index: nat,
)
    requires
        advance(list, prefix) is Some,
        advance(list, prefix)->0 <= list.len(),
        index >= prefix.len(),
        index == prefix.len() || !(step_with(list.skip(advance(list, prefix)->0 as int), c) matches Ok(Some(_))),
    ensures
        walk_with(list, prefix.push(c), index) == step_with(list.skip(advance(list, prefix)->0 as int), c),
    decreases prefix.len(),
{
    if prefix.len() == 0 {
        assert(list.skip(0) =~= list);
        assert(prefix.push(c).drop_first().len() == 0);
    } else {
        let s = step_with(list, prefix[0]);
        let (ph, args) = s->Ok_0->0;
        let rest = list.skip(entry_len(args) as int);
        let o = advance(rest, prefix.drop_first())->0;
        assert(prefix.push(c).drop_first() =~= prefix.drop_first().push(c));
        assert(prefix.push(c)[0] == prefix[0]);
        assert(rest.skip(o as int) =~= list.skip((o + entry_len(args)) as int));
        lemma_walk_last_step(rest, prefix.drop_first(), c, (index - 1) as nat);
    }
}

/// One more successful step moves the walk past that step's entry.
pub proof fn lemma_advance_push(list: Seq<u8>, prefix: Seq<Result<nat, OfError>>, c: Result<nat, OfError>)
    requires
        advance(list, prefix) is Some,
        advance(list, prefix)->0 <= list.len(),
        step_with(list.skip(advance(list, prefix)->0 as int), c) matches Ok(Some(_)),
    ensures
        step_with(list.skip(advance(list, prefix)->0 as int), c) matches Ok(Some((ph, args)))
            ==> advance(list, prefix.push(c)) == Some((advance(list, prefix)->0 + entry_len(args)) as nat),
    decreases prefix.len(),
{
    let o0 = advance(list, prefix)->0;
    let (ph2, args2) = step_with(list.skip(o0 as int), c)->Ok_0->0;
    if prefix.len() == 0 {
        assert(list.skip(0) =~= list);
        assert(prefix.push(c).drop_first().len() == 0);
        assert(prefix.push(c)[0] == c);
        assert(advance(list.skip(entry_len(args2) as int), prefix.push(c).drop_first()) == Some(0nat));
    } else {
        let s = step_with(list, prefix[0]);
        let (ph, args) = s->Ok_0->0;
        let rest = list.skip(entry_len(args) as int);
        let o = advance(rest, prefix.drop_first())->0;
        assert(o0 == o + entry_len(args));
        assert(prefix.push(c).drop_first() =~= prefix.drop_first().push(c));
        assert(prefix.push(c)[0] == prefix[0]);
        assert(rest.skip(o as int) =~= list.skip((o + entry_len(args)) as int));
        lemma_advance_push(rest, prefix.drop_first(), c);
        assert(advance(rest, prefix.drop_first().push(c)) == Some((o + entry_len(args2)) as nat));
    }
}

/// Whether each count of `counts` is what `cnt` gives for the phandle of
/// the step of the walk from the start of `list` that it was recorded at.
pub open spec fn recorded_by(
    list: Seq<u8>,
    counts: Seq<Result<nat, OfError>>,
    cnt: spec_fn(u32) -> Result<nat, OfError>,
) -> bool
    decreases counts.len(),
{
    if counts.len() == 0 || list.len() < 4 {
        true
    } else {
        &&& counts[0] == cnt(be_u32_of(list, 0))
        &&& match step_with(list, counts[0]) {
            Ok(Some((ph, args))) => recorded_by(list.skip(entry_len(args) as int), counts.drop_first(), cnt),
            _ => true,
        }
    }
}

/// Whether `counts` is the record of a whole indexed walk from the start of
/// `list`: every step but the last yields an entry, and the last one either
/// ends the walk or is at position `index`.
pub open spec fn whole_walk(list: Seq<u8>, counts: Seq<Result<nat, OfError>>, index: nat) -> bool {
    &&& 1 <= counts.len() <= index + 1
    &&& advance(list, counts.drop_last()) is Some
    &&& advance(list, counts.drop_last())->0 <= list.len()
    &&& (counts.len() == index + 1 || !(step_with(
        list.skip(advance(list, counts.drop_last())->0 as int),
        counts.last(),
    ) matches Ok(Some(_))))
}

/// A whole indexed walk whose record agrees with the lookup `cnt` at every
/// step finds what the list model finds at that index.
pub proof fn lemma_walk_is_nth(
    list: Seq<u8>,
    counts: Seq<Result<nat, OfError>>,
    cnt: spec_fn(u32) -> Result<nat, OfError>,
    index: nat,
)
    requires
        whole_walk(list, counts, index),
        recorded_by(list, counts, cnt),
    ensures
        walk_with(list, counts, index) == nth_spec(list, cnt, index),
    decreases counts.len(),
{
    if list.len() >= 4 {
        assert(step_with(list, counts[0]) == step_spec(list, cnt));
        if let Ok(Some((ph, args))) = step_spec(list, cnt) {
            if index > 0 {
                let rest = list.skip(entry_len(args) as int);
                let t = counts.drop_first();
                if counts.len() == 1 {
                    assert(counts.drop_last().len() == 0);
                    assert(list.skip(0) =~= list);
                    assert(counts.last() == counts[0]);
                } else {
                    assert(counts.drop_last()[0] == counts[0]);
                    assert(counts.drop_last().drop_first() =~= t.drop_last());
                    let o = advance(rest, t.drop_last())->0;
                    assert(rest.skip(o as int) =~= list.skip((o + entry_len(args)) as int));
                    assert(t.last() == counts.last());
                    lemma_walk_is_nth(rest, t, cnt, (index - 1) as nat);
                }
            }
        }
    }
}

/// Recording one more step's count, when it is what `cnt` gives there, keeps
/// the record in agreement with `cnt`.
pub proof fn lemma_recorded_push(
    list: Seq<u8>,
    prefix: Seq<Result<nat, OfError>>,
    c: Result<nat, OfError>,
    cnt: spec_fn(u32) -> Result<nat, OfError>,
)
    requires
        advance(list, prefix) is Some,
        advance(list, prefix)->0 <= list.len(),
        recorded_by(list, prefix, cnt),
        list.skip(advance(list, prefix)->0 as int).len() >= 4 ==> c == cnt(
            be_u32_of(list.skip(advance(list, prefix)->0 as int), 0),
        ),
    ensures
        recorded_by(list, prefix.push(c), cnt),
    decreases prefix.len(),
{
    let p = prefix.push(c);
    if prefix.len() == 0 {
        assert(list.skip(0) =~= list);
        assert(p.drop_first().len() == 0);
        assert(p[0] == c);
        if list.len() >= 4 {
            assert(p[0] == cnt(be_u32_of(list, 0)));
            if let Ok(Some((ph, args))) = step_with(list, c) {
                assert(recorded_by(list.skip(entry_len(args) as int), p.drop_first(), cnt));
            }
        }
    } else {
        let s = step_with(list, prefix[0]);
        let (ph, args) = s->Ok_0->0;
        let rest = list.skip(entry_len(args) as int);
        let o = advance(rest, prefix.drop_first())->0;
        assert(list.len() >= 4);
        assert(p.drop_first() =~= prefix.drop_first().push(c));
        assert(p[0] == prefix[0]);
        assert(rest.skip(o as int) =~= list.skip((o + entry_len(args)) as int));
        assert(recorded_by(rest, prefix.drop_first(), cnt));
        lemma_recorded_push(rest, prefix.drop_first(), c, cnt);
        assert(recorded_by(rest, p.drop_first(), cnt));
    }
}

/// Whether `a` is an argument record holding exactly the cells `args`, the
/// unused slots zero.
pub open spec fn holds_args(a: Seq<u32>, args: Seq<u32>) -> bool {
    &&& a.len() == MAX_PHANDLE_ARGS
    &&& args.len() <= MAX_PHANDLE_ARGS
    &&& a.take(args.len() as int) == args
    &&& forall|i: int| args.len() <= i < MAX_PHANDLE_ARGS ==> a[i] == 0
}

/// The 64-bit value of the eight bytes of `b` starting at `off`, most significant first.
pub open spec fn be_u64_of(b: Seq<u8>, off: int) -> u64 {
    (be_u32_of(b, off) as int * 0x100000000 + be_u32_of(b, off + 4) as int) as u64
}

/// A property value read as an unsigned count: one 32-bit cell or two.
pub open spec fn count_value_spec(v: Seq<u8>) -> Option<usize> {
    if v.len() == 4 {
        Some(be_u32_of(v, 0) as usize)
    } else if v.len() == 8 {
        Some(be_u64_of(v, 0) as usize)
    } else {
        None
    }
}

/// The phandle at byte `offset` of `list`, or `None` where fewer than four
/// bytes remain: the normal end of a list.
pub fn read_phandle(list: &[u8], offset: usize) -> (r: Option<u32>)
    requires
        offset <= list@.len(),
    ensures
        r is None <==> list@.skip(offset as int).len() < 4,
        r is Some ==> r->0 == be_u32_of(list@.skip(offset as int), 0),
{
    match be_u32_at(list, offset) {
        Ok(v) => {
            assert(be_u32_of(list@.skip(offset as int), 0) == be_u32_of(list@, offset as int));
            Some(v)
        },
        Err(_) => None,
    }
}

/// The `count` argument cells of the entry whose phandle sits at byte
/// `offset` of `list`, in a record of `MAX_PHANDLE_ARGS` slots.
pub fn read_args(list: &[u8], offset: usize, count: usize) -> (r: Result<[u32; MAX_PHANDLE_ARGS], OfError>)
    requires
        offset <= list@.len(),
    ensures
        match args_spec(list@.skip(offset as int), count as nat) {
            Ok(args) => r is Ok && holds_args(r->Ok_0@, args),
            Err(e) => r == Err::<[u32; MAX_PHANDLE_ARGS], OfError>(e),
        },
{
    let ghost l = list@.skip(offset as int);
    let n = list.len();
    if count > MAX_PHANDLE_ARGS {
        return Err(OfError::CapacityExceeded);
    }
    if list.len() - offset < 4 || (list.len() - offset - 4) / 4 < count {
        return Err(OfError::InsufficientBytes);
    }
    let mut args: [u32; MAX_PHANDLE_ARGS] = [0; MAX_PHANDLE_ARGS];
    let ghost want = cells_of(l.skip(4), count as nat);
    let mut i: usize = 0;
    while i < count
        invariant
            i <= count <= MAX_PHANDLE_ARGS,
            n == list@.len(),
            offset + 4 + 4 * count <= list@.len(),
            l == list@.skip(offset as int),
            want == cells_of(l.skip(4), count as nat),
            args@.len() == MAX_PHANDLE_ARGS,
            forall|j: int| 0 <= j < i ==> args@[j] == want[j],
            forall|j: int| i <= j < MAX_PHANDLE_ARGS ==> args@[j] == 0,
        decreases count - i,
    {
        let v = match be_u32_at(list, offset + 4 + 4 * i) {
            Ok(v) => v,
            Err(_) => 0,
        };
        assert(be_u32_of(list@, offset + 4 + 4 * i) == be_u32_of(l.skip(4), 4 * i));
        args[i] = v;
        i = i + 1;
    }
    assert(args@.take(count as int) =~= want);
    Ok(args)
}

/// Reads a property value as an unsigned count: a single big-endian cell, or
/// two for a 64-bit value; any other length gives `None`.
pub fn count_value(v: &[u8]) -> (r: Option<usize>)
    ensures
        r == count_value_spec(v@),
{
    if v.len() == 4 {
        match be_u32_at(v, 0) {
            Ok(x) => Some(x as usize),
            Err(_) => None,
        }
    } else if v.len() == 8 {
        match (be_u32_at(v, 0), be_u32_at(v, 4)) {
            (Ok(hi), Ok(lo)) => {
                let x: u64 = (hi as u64) * 0x100000000 + lo as u64;
                Some(x as usize)
            },
            _ => None,
        }
    } else {
        None
    }
}

} // verus!
