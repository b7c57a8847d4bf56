//! Gram extraction: sliding a window of `n` words over a sentence.

use vstd::prelude::*;

use crate::strutil::push_char;
use crate::strutil::str_copy;
use crate::text::split_fields;
use crate::text::split_raw;
use crate::text::words_of;

verus! {

/// Words joined by single spaces.
pub open spec fn gram_join(ws: Seq<Seq<char>>) -> Seq<char>
    decreases ws.len(),
{
    if ws.len() == 0 {
        Seq::empty()
    } else if ws.len() == 1 {
        ws[0]
    } else {
        gram_join(ws.drop_last()) + seq![' '] + ws.last()
    }
}

/// The grams of order `n` of a sentence: every window of `n` consecutive
/// words, joined by single spaces, in sentence order.  Order zero and
/// sentences of fewer than `n` words give no grams.
pub open spec fn grams_of(s: Seq<char>, n: int) -> Seq<Seq<char>> {
    let w = words_of(s);
    if n <= 0 || w.len() < n {
        Seq::empty()
    } else {
        Seq::new((w.len() - n + 1) as nat, |i: int| gram_join(w.subrange(i, i + n)))
    }
}

/// The nonempty words of a string, in order.
pub fn split_words(s: &str) -> (r: Vec<String>)
    ensures
        r@.map_values(|w: String| w@) == words_of(s@),
{
    let fields = split_fields(s);
    let mut out: Vec<String> = Vec::new();
    let n = fields.len();
    let mut i: usize = 0;
    proof {
        reveal(Seq::filter);
        assert(split_raw(s@).take(0) =~= Seq::<Seq<char>>::empty());
        assert(out@.map_values(|w: String| w@) =~= Seq::<Seq<char>>::empty());
        assert(Seq::<Seq<char>>::empty().filter(|w: Seq<char>| w.len() > 0)
            =~= Seq::<Seq<char>>::empty());
    }
    while i < n
        invariant
            0 <= i <= n,
            n == fields@.len(),
            fields@.map_values(|w: String| w@) == split_raw(s@),
            out@.map_values(|w: String| w@) == split_raw(s@).take(i as int).filter(
                |w: Seq<char>| w.len() > 0,
            ),
        decreases n - i,
    {
        let ghost pre = split_raw(s@).take(i as int);
        let ghost post = split_raw(s@).take(i + 1);
        proof {
            reveal(Seq::filter);
            assert(post.drop_last() =~= pre);
            assert(post.last() == split_raw(s@)[i as int]);
            assert(split_raw(s@)[i as int] == fields@[i as int]@);
        }
        let w = &fields[i];
        if w.as_str().unicode_len() > 0 {
            out.push(str_copy(w.as_str()));
            proof {
                assert(out@.map_values(|w: String| w@) =~= post.filter(
                    |w: Seq<char>| w.len() > 0,
                ));
            }
        } else {
            proof {
                assert(out@.map_values(|w: String| w@) =~= post.filter(
                    |w: Seq<char>| w.len() > 0,
                ));
            }
        }
        i += 1;
    }
    proof {
        assert(split_raw(s@).take(n as int) =~= split_raw(s@));
    }
    out
}

/// Joins `ws[from..to]` with single spaces.
fn join_range(ws: &Vec<String>, from: usize, to: usize) -> (r: String)
    requires
        from <= to <= ws@.len(),
    ensures
        r@ == gram_join(ws@.map_values(|w: String| w@).subrange(from as int, to as int)),
{
    let ghost full = ws@.map_values(|w: String| w@);
    let mut out = String::new();
    let mut k: usize = from;
    while k < to
        invariant
            from <= k <= to <= ws@.len(),
            full == ws@.map_values(|w: String| w@),
            out@ == gram_join(full.subrange(from as int, k as int)),
        decreases to - k,
    {
        proof {
            let prev = full.subrange(from as int, k as int);
            let next = full.subrange(from as int, k + 1);
            assert(next.drop_last() =~= prev);
            assert(next.last() == full[k as int]);
        }
        if k > from {
            push_char(&mut out, ' ');
        }
        out.append(ws[k].as_str());
        proof {
            let next = full.subrange(from as int, k + 1);
            if k > from {
                assert(out@ =~= gram_join(next.drop_last()) + seq![' '] + next.last());
            } else {
                assert(next.len() == 1);
                assert(out@ =~= next[0]);
            }
        }
        k += 1;
    }
    proof {
        if from == to {
            assert(full.subrange(from as int, to as int).len() == 0);
        }
    }
    out
}

impl crate::model::NGram {
    /// The order-`n` grams of a sentence, in sentence order.
    pub fn create_grams(s: &String, n: usize) -> (r: Vec<String>)
        ensures
            r@.map_values(|g: String| g@) == grams_of(s@, n as int),
    {
        let mut out: Vec<String> = Vec::new();
        if n == 0 {
            proof {
                assert(out@.map_values(|g: String| g@) =~= grams_of(s@, 0));
            }
            return out;
        }
        let ws = split_words(s.as_str());
        let len = ws.len();
        if len < n {
            proof {
                assert(out@.map_values(|g: String| g@) =~= grams_of(s@, n as int));
            }
            return out;
        }
        let count = len - n + 1;
        let mut i: usize = 0;
        while i < count
            invariant
                0 <= i <= count,
                count == len - n + 1,
                n >= 1,
                n <= len,
                len == ws@.len(),
                ws@.map_values(|w: String| w@) == words_of(s@),
                out@.map_values(|g: String| g@) =~= grams_of(s@, n as int).take(i as int),
            decreases count - i,
        {
            let g = join_range(&ws, i, i + n);
            let ghost prev = out@.map_values(|g: String| g@);
            let ghost gv = g@;
            out.push(g);
            proof {
                assert(grams_of(s@, n as int)[i as int] == gram_join(
                    words_of(s@).subrange(i as int, i + n),
                ));
                assert(out@.map_values(|g: String| g@) =~= prev.push(gv));
                assert(prev.push(gv) =~= grams_of(s@, n as int).take(i + 1));
            }
            i += 1;
        }
        proof {
            assert(grams_of(s@, n as int).take(count as int) =~= grams_of(s@, n as int));
        }
        out
    }
}

} // verus!
