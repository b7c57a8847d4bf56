//! The chunked batch runner and small shared helpers.
//!
//! The runner splits an ordered list into a fixed number of contiguous
//! chunks, runs a worker on each chunk against a shared read-only context,
//! and concatenates the per-chunk outputs in chunk order.  Its contract pins
//! the chunk boundaries and the output order, so callers can reason about
//! the whole output from the worker's contract alone.

use vstd::prelude::*;

use crate::nums::PROB_SCALE;

verus! {

/// A labelled training or validation pair: the label, then the text.
pub type InputTup = (String, String);

/// Ceiling of `len / num`: the chunk size the runner uses.
pub open spec fn chunk_size(len: int, num: int) -> int {
    if len == 0 {
        0
    } else {
        (len - 1) / num + 1
    }
}

/// The chunks cover the whole list.
pub proof fn lemma_chunk_size_covers(len: int, num: int)
    requires
        num >= 1,
        len >= 0,
    ensures
        chunk_size(len, num) * num >= len,
        chunk_size(len, num) >= 0,
        len > 0 ==> chunk_size(len, num) >= 1,
{
    if len > 0 {
        let q = (len - 1) / num;
        assert(q * num + num >= len) by (nonlinear_arith)
            requires
                num >= 1,
                len >= 1,
                q == (len - 1) / num,
        ;
        assert((q + 1) * num == q * num + num) by (nonlinear_arith);
    }
}

/// The `i`-th contiguous chunk of `list` under chunk size `csize`; chunks
/// past the end are empty, the last short chunk is truncated.
pub open spec fn chunk_of<T>(list: Seq<T>, csize: int, i: int) -> Seq<T> {
    let len = list.len() as int;
    let lo = if i * csize > len {
        len
    } else {
        i * csize
    };
    let hi = if (i + 1) * csize > len {
        len
    } else {
        (i + 1) * csize
    };
    if 0 <= lo <= hi {
        list.subrange(lo, hi)
    } else {
        Seq::empty()
    }
}

/// One chunk's output: some possible result of the worker on that chunk.
pub open spec fn chunk_output<T1, T2, T3, F: Fn(&T3, &[T1]) -> Vec<T2>>(
    f: F,
    context: &T3,
    list: Seq<T1>,
    csize: int,
    i: int,
    out: Vec<T2>,
) -> bool {
    exists|cv: &[T1]|
        cv@ == chunk_of(list, csize, i) && #[trigger] call_ensures(f, (context, cv), out)
}

/// What the runner guarantees: one output vector per chunk, each a possible
/// result of the worker on that chunk, concatenated in chunk order.
pub open spec fn runner_post<T1, T2, T3, F: Fn(&T3, &[T1]) -> Vec<T2>>(
    f: F,
    context: &T3,
    list: Seq<T1>,
    num: int,
    outs: Seq<Vec<T2>>,
    result: Seq<T2>,
) -> bool {
    let csize = chunk_size(list.len() as int, num);
    &&& outs.len() == num
    &&& forall|i: int|
        0 <= i < num ==> #[trigger] chunk_output(f, context, list, csize, i, outs[i])
    &&& result == outs.map_values(|v: Vec<T2>| v@).flatten()
}

/// Runs `f_thread` over `num_threads` contiguous chunks of `list`, sharing
/// `context`, and returns the chunk outputs concatenated in chunk order.
pub fn multi_thread_process_list<T1, T2, T3, F: Fn(&T3, &[T1]) -> Vec<T2>>(
    list: &Vec<T1>,
    context: &T3,
    num_threads: usize,
    f_thread: F,
) -> (r: Vec<T2>)
    requires
        num_threads >= 1,
        forall|cv: &[T1]| #[trigger] call_requires(f_thread, (context, cv)),
    ensures
        exists|outs: Seq<Vec<T2>>|
            #[trigger] runner_post(f_thread, context, list@, num_threads as int, outs, r@),
{
    let len = list.len();
    let csize: usize = if len == 0 {
        0
    } else {
        (len - 1) / num_threads + 1
    };
    let mut r: Vec<T2> = Vec::new();
    let ghost mut outs: Seq<Vec<T2>> = Seq::empty();
    let mut i: usize = 0;
    let mut pos: usize = 0;
    while i < num_threads
        invariant
            0 <= i <= num_threads,
            num_threads >= 1,
            len == list@.len(),
            csize == chunk_size(len as int, num_threads as int),
            pos as int == if i * (csize as int) > len {
                len as int
            } else {
                i * (csize as int)
            },
            pos <= len,
            forall|cv: &[T1]| #[trigger] call_requires(f_thread, (context, cv)),
            outs.len() == i,
            forall|j: int|
                0 <= j < i ==> #[trigger] chunk_output(
                    f_thread,
                    context,
                    list@,
                    csize as int,
                    j,
                    outs[j],
                ),
            r@ == outs.map_values(|v: Vec<T2>| v@).flatten(),
        decreases num_threads - i,
    {
        // build the i-th chunk
        let lo = pos;
        let hi = if csize > len - pos {
            len
        } else {
            pos + csize
        };
        proof {
            assert(i * (csize as int) >= 0) by (nonlinear_arith)
                requires
                    i >= 0,
                    csize >= 0,
            ;
            assert((i + 1) * (csize as int) == i * (csize as int) + csize) by (nonlinear_arith);
        }
        let chunk: &[T1] = vstd::slice::slice_subrange(list.as_slice(), lo, hi);
        proof {
            if i * (csize as int) > len {
                assert((i + 1) * (csize as int) > len);
                assert(lo as int == len && hi as int == len);
            }
            assert(chunk@ =~= chunk_of(list@, csize as int, i as int));
        }
        let ghost chunk_v = chunk;
        let mut out = f_thread(context, chunk);
        let ghost out_v = out;
        let ghost prev_outs = outs;
        proof {
            outs = outs.push(out_v);
        }
        r.append(&mut out);
        proof {
            assert(call_ensures(f_thread, (context, chunk_v), out_v));
            assert(chunk_output(f_thread, context, list@, csize as int, i as int, out_v));
            let f = |v: Vec<T2>| v@;
            assert(outs.map_values(f).drop_last() =~= prev_outs.map_values(f));
            assert(outs.map_values(f).last() == out_v@);
            lemma_flatten_push(prev_outs.map_values(f), out_v@);
            assert(outs.map_values(f) =~= prev_outs.map_values(f).push(out_v@));
            assert(r@ =~= outs.map_values(f).flatten());
        }
        pos = hi;
        i += 1;
    }
    proof {
        assert(runner_post(f_thread, context, list@, num_threads as int, outs, r@));
    }
    r
}

/// Flattening after appending one more sequence appends its elements.
pub proof fn lemma_flatten_push<T>(ss: Seq<Seq<T>>, t: Seq<T>)
    ensures
        ss.push(t).flatten() == ss.flatten() + t,
    decreases ss.len(),
{
    if ss.len() == 0 {
        assert(ss.push(t).drop_first() =~= Seq::<Seq<T>>::empty());
        assert(ss.push(t).flatten() =~= Seq::<Seq<T>>::empty().flatten() + t);
        assert(ss.push(t).flatten() =~= ss.flatten() + t);
    } else {
        assert(ss.push(t).drop_first() =~= ss.drop_first().push(t));
        lemma_flatten_push(ss.drop_first(), t);
        assert(ss.push(t).flatten() == ss.push(t)[0] + ss.push(t).drop_first().flatten());
        assert(ss.push(t)[0] == ss[0]);
        assert(ss[0] + (ss.drop_first().flatten() + t) =~= (ss[0] + ss.drop_first().flatten())
            + t);
    }
}

/// Chunks shifted by one index are chunks of the list without its first
/// chunk.
proof fn lemma_chunk_shift<T>(list: Seq<T>, csize: int, i: int)
    requires
        csize >= 1,
        i >= 0,
    ensures
        chunk_of(list, csize, i + 1) == chunk_of(list.skip(if csize > list.len() {
            list.len() as int
        } else {
            csize
        }), csize, i),
{
    let len = list.len() as int;
    let c = if csize > len {
        len
    } else {
        csize
    };
    let rest = list.skip(c);
    assert((i + 1) * csize == i * csize + csize) by (nonlinear_arith);
    assert((i + 2) * csize == (i + 1) * csize + csize) by (nonlinear_arith);
    assert(i * csize >= 0) by (nonlinear_arith)
        requires
            i >= 0,
            csize >= 0,
    ;
    if csize > len {
        assert(rest.len() == 0);
        assert(chunk_of(list, csize, i + 1) =~= chunk_of(rest, csize, i));
    } else {
        assert(chunk_of(list, csize, i + 1) =~= chunk_of(rest, csize, i));
    }
}

/// If each output is the image of its chunk under `g`, the concatenation is
/// the image of the whole list.
pub proof fn lemma_map_chunks<T, U>(list: Seq<T>, g: spec_fn(T) -> U, csize: int, outs: Seq<Seq<U>>)
    requires
        csize >= 1,
        outs.len() * csize >= list.len(),
        forall|i: int| 0 <= i < outs.len() ==> #[trigger] outs[i] == chunk_of(list, csize, i).map_values(g),
    ensures
        outs.flatten() == list.map_values(g),
    decreases outs.len(),
{
    if outs.len() == 0 {
        assert(list.len() == 0);
        assert(list.map_values(g) =~= Seq::<U>::empty());
        assert(outs.flatten() =~= Seq::<U>::empty());
    } else {
        let len = list.len() as int;
        let c = if csize > len {
            len
        } else {
            csize
        };
        let rest = list.skip(c);
        assert(outs[0] == chunk_of(list, csize, 0).map_values(g));
        assert(chunk_of(list, csize, 0) =~= list.take(c)) by {
            assert(0 * csize == 0) by (nonlinear_arith);
            assert(1 * csize == csize) by (nonlinear_arith);
        }
        assert forall|i: int| 0 <= i < outs.drop_first().len() implies #[trigger] outs.drop_first()[i]
            == chunk_of(rest, csize, i).map_values(g) by {
            assert(outs.drop_first()[i] == outs[i + 1]);
            lemma_chunk_shift(list, csize, i);
        }
        let n = outs.len() as int;
        let llen = list.len() as int;
        let rlen = rest.len() as int;
        assert((n - 1) * csize >= rlen) by (nonlinear_arith)
            requires
                n * csize >= llen,
                csize >= 1,
                n >= 1,
                rlen == llen - c,
                c == csize || rlen == 0,
                rlen >= 0,
        ;
        lemma_map_chunks(rest, g, csize, outs.drop_first());
        assert(outs.flatten() == outs[0] + outs.drop_first().flatten());
        assert(list.take(c).map_values(g) + rest.map_values(g) =~= list.map_values(g)) by {
            assert(forall|j: int| 0 <= j < c ==> list.take(c)[j] == list[j]);
            assert(forall|j: int| 0 <= j < rest.len() ==> rest[j] == list[j + c]);
        }
    }
}

/// Every element of a flattened sequence comes from one of its parts.
pub proof fn lemma_flatten_elem<T>(ss: Seq<Seq<T>>, j: int)
    requires
        0 <= j < ss.flatten().len(),
    ensures
        exists|i: int, k: int|
            0 <= i < ss.len() && 0 <= k < ss[i].len() && ss.flatten()[j] == #[trigger] ss[i][k],
    decreases ss.len(),
{
    if ss.len() > 0 {
        assert(ss.flatten() == ss[0] + ss.drop_first().flatten());
        if j < ss[0].len() {
            assert(ss.flatten()[j] == ss[0][j]);
        } else {
            lemma_flatten_elem(ss.drop_first(), j - ss[0].len());
            let (i, k) = choose|i: int, k: int|
                0 <= i < ss.drop_first().len() && 0 <= k < ss.drop_first()[i].len()
                    && ss.drop_first().flatten()[j - ss[0].len()] == #[trigger] ss.drop_first()[i][k];
            assert(ss[i + 1][k] == ss.flatten()[j]);
        }
    }
}

/// Folds `f` over the list from the left: there is a chain of intermediate
/// values, each a possible result of `f` on the previous one and the next
/// element, from `init` to `res`.
pub open spec fn folds_to<VT, RT, F: Fn(&VT, RT) -> RT>(
    f: F,
    s: Seq<VT>,
    init: RT,
    res: RT,
) -> bool
    decreases s.len(),
{
    if s.len() == 0 {
        init == res
    } else {
        exists|x: &VT, mid: RT|
            *x == s[0] && #[trigger] call_ensures(f, (x, init), mid) && folds_to(
                f,
                s.drop_first(),
                mid,
                res,
            )
    }
}

/// Left fold of `f` over `list` starting from `initial`.
pub fn reduce<VT, RT, F: Fn(&VT, RT) -> RT>(list: &Vec<VT>, initial: RT, f: F) -> (r: RT)
    requires
        forall|x: &VT, acc: RT| #[trigger] call_requires(f, (x, acc)),
    ensures
        folds_to(f, list@, initial, r),
{
    let n = list.len();
    let mut acc = initial;
    let mut i: usize = 0;
    let ghost init_v = acc;
    proof {
        assert(list@.skip(0) =~= list@);
    }
    while i < n
        invariant
            0 <= i <= n,
            n == list@.len(),
            forall|x: &VT, a: RT| #[trigger] call_requires(f, (x, a)),
            forall|r2: RT| folds_to(f, list@.skip(i as int), acc, r2) ==> folds_to(f, list@, init_v, r2),
        decreases n - i,
    {
        let ghost prev = acc;
        acc = f(&list[i], acc);
        proof {
            assert(list@.skip(i as int)[0] == list@[i as int]);
            assert(list@.skip(i as int).drop_first() =~= list@.skip(i + 1));
            assert forall|r2: RT| folds_to(f, list@.skip(i + 1), acc, r2) implies folds_to(
                f,
                list@,
                init_v,
                r2,
            ) by {
                let x = &list[i as int];
                assert(*x == list@.skip(i as int)[0]);
                assert(call_ensures(f, (x, prev), acc));
                assert(folds_to(f, list@.skip(i as int), prev, r2));
            }
        }
        i += 1;
    }
    proof {
        assert(list@.skip(n as int) =~= Seq::<VT>::empty());
        assert(folds_to(f, list@.skip(n as int), acc, acc));
    }
    acc
}

/// A fixed-point fraction as a percentage, in hundredths of a percent,
/// rounded up.
pub fn get_percent(prob: &u64) -> (r: u64)
    ensures
        r == (*prob * 10000 + PROB_SCALE - 1) as int / PROB_SCALE as int,
{
    let wide: u128 = (*prob as u128) * 10000 + (PROB_SCALE as u128) - 1;
    let out = wide / (PROB_SCALE as u128);
    proof {
        assert(wide / (PROB_SCALE as u128) <= wide);
        assert(out <= u64::MAX) by (nonlinear_arith)
            requires
                out == wide / (PROB_SCALE as u128),
                wide == (*prob as u128) * 10000 + (PROB_SCALE as u128) - 1,
                PROB_SCALE == 1_000_000_000,
        ;
    }
    out as u64
}

} // verus!
