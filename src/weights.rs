use vstd::prelude::*;
use vstd::std_specs::iter::IteratorSpec;

verus! {

/// Unicode whitespace (the `White_Space` property): tab to carriage return, space, next line,
/// no-break space, ogham space mark, en quad to hair space, line and paragraph separators,
/// narrow no-break space, medium mathematical space and ideographic space.
pub open spec fn is_space(c: char) -> bool {
    let u = c as u32;
    ||| 0x9 <= u <= 0xD
    ||| u == 0x20 || u == 0x85 || u == 0xA0 || u == 0x1680
    ||| 0x2000 <= u <= 0x200A
    ||| u == 0x2028 || u == 0x2029 || u == 0x202F || u == 0x205F || u == 0x3000
}

pub open spec fn is_digit(c: char) -> bool {
    48 <= c as u32 <= 57
}

fn white(c: char) -> (r: bool)
    ensures
        r == is_space(c),
{
    let u = c as u32;
    (0x9 <= u && u <= 0xD) || u == 0x20 || u == 0x85 || u == 0xA0 || u == 0x1680 || (0x2000 <= u
        && u <= 0x200A) || u == 0x2028 || u == 0x2029 || u == 0x202F || u == 0x205F || u == 0x3000
}

/// The characters of `line`, in order.
fn chars_of(line: &str) -> (r: Vec<char>)
    ensures
        r@ == line@,
{
    let mut it = line.chars();
    let mut out: Vec<char> = Vec::new();
    loop
        invariant
            out@ + it.remaining() == line@,
            it.decrease() is Some,
        ensures
            out@ == line@,
        decreases it.decrease()->0,
    {
        match it.next() {
            Some(c) => {
                out.push(c);
            },
            None => {
                break;
            },
        }
    }
    out
}

/// Length of the run of non-space characters at the start of `b`.
pub open spec fn word_len(b: Seq<char>) -> nat
    decreases b.len(),
{
    if b.len() == 0 || is_space(b[0]) {
        0
    } else {
        1 + word_len(b.skip(1))
    }
}

/// The whitespace-separated words of `b`, in order.
pub open spec fn words(b: Seq<char>) -> Seq<Seq<char>>
    decreases b.len(),
{
    if b.len() == 0 {
        Seq::empty()
    } else if is_space(b[0]) {
        words(b.skip(1))
    } else {
        let w = word_len(b);
        if w == 0 || w > b.len() {
            Seq::empty()
        } else {
            seq![b.take(w as int)] + words(b.skip(w as int))
        }
    }
}

pub open spec fn all_digits(t: Seq<char>) -> bool {
    forall|i: int| 0 <= i < t.len() ==> is_digit(#[trigger] t[i])
}

/// The number written by a run of decimal digits.
pub open spec fn digits_value(t: Seq<char>) -> int
    decreases t.len(),
{
    if t.len() == 0 {
        0
    } else {
        digits_value(t.drop_last()) * 10 + (t.last() as u32 - 48)
    }
}

/// The integer a word writes: decimal digits with an optional leading `+` or `-`.
pub open spec fn word_value(t: Seq<char>) -> Option<int> {
    if t.len() > 1 && (t[0] == '-' || t[0] == '+') && all_digits(t.skip(1)) {
        if t[0] == '-' {
            Some(-digits_value(t.skip(1)))
        } else {
            Some(digits_value(t.skip(1)))
        }
    } else if t.len() > 0 && all_digits(t) {
        Some(digits_value(t))
    } else {
        None
    }
}

/// The word writes an integer that fits in an `i32`.
pub open spec fn is_weight(t: Seq<char>) -> bool {
    word_value(t) matches Some(v) && i32::MIN <= v <= i32::MAX
}

/// A word of the line that is not an integer within `i32`: the characters `start..end` of the line.
#[derive(Clone, Copy, Debug, PartialEq, Eq, Structural)]
pub enum WeightError {
    NotAnInteger { start: usize, end: usize },
}

proof fn lemma_word_len_step(b: Seq<char>, i: int)
    requires
        0 <= i < b.len(),
        !is_space(b[i]),
    ensures
        word_len(b.skip(i)) == 1 + word_len(b.skip(i + 1)),
{
    assert(b.skip(i).skip(1) =~= b.skip(i + 1));
}

proof fn lemma_word_len_bound(b: Seq<char>)
    ensures
        word_len(b) <= b.len(),
    decreases b.len(),
{
    if b.len() > 0 && !is_space(b[0]) {
        lemma_word_len_bound(b.skip(1));
    }
}

proof fn lemma_digits_grow(t: Seq<char>, k: int)
    requires
        all_digits(t),
        0 <= k <= t.len(),
    ensures
        0 <= digits_value(t.take(k)) <= digits_value(t),
    decreases t.len(),
{
    if t.len() > 0 {
        assert(is_digit(t[t.len() - 1]));
        assert(all_digits(t.drop_last()));
        if k == t.len() {
            assert(t.take(k) =~= t);
            lemma_digits_grow(t.drop_last(), k - 1);
        } else {
            assert(t.drop_last().take(k) =~= t.take(k));
            lemma_digits_grow(t.drop_last(), k);
        }
    } else {
        assert(t.take(k) =~= t);
    }
}

/// Reads the digits `b[from..end]` as a number, giving up once it is past `2^31`.
fn digits_upto(b: &Vec<char>, from: usize, end: usize) -> (r: Option<i64>)
    requires
        from <= end <= b@.len(),
    ensures
        r matches Some(v) ==> all_digits(b@.subrange(from as int, end as int)) && v == digits_value(
            b@.subrange(from as int, end as int),
        ) && 0 <= v <= 2147483648,
        r is None ==> !all_digits(b@.subrange(from as int, end as int)) || digits_value(
            b@.subrange(from as int, end as int),
        ) > 2147483648,
{
    let ghost t = b@.subrange(from as int, end as int);
    let mut acc: i64 = 0;
    let mut k: usize = from;
    while k < end
        invariant
            from <= k <= end <= b@.len(),
            t == b@.subrange(from as int, end as int),
            all_digits(t.take(k - from)),
            acc == digits_value(t.take(k - from)),
            0 <= acc <= 2147483648,
        decreases end - k,
    {
        let c = b[k] as u32;
        if c < 48 || c > 57 {
            assert(t[k - from] as u32 == c);
            return None;
        }
        proof {
            assert(t.take(k - from + 1).drop_last() =~= t.take(k - from));
            assert(t.take(k - from + 1)[k - from] as u32 == c);
        }
        acc = acc * 10 + (c - 48) as i64;
        k = k + 1;
        if acc > 2147483648 {
            proof {
                if all_digits(t) {
                    lemma_digits_grow(t, k - from);
                }
            }
            return None;
        }
    }
    assert(t.take(k - from) =~= t);
    Some(acc)
}

/// The `i32` that the word `b[start..end]` writes, if it writes one.
fn parse_word(b: &Vec<char>, start: usize, end: usize) -> (r: Option<i32>)
    requires
        start < end <= b@.len(),
    ensures
        r is Some <==> is_weight(b@.subrange(start as int, end as int)),
        r matches Some(v) ==> word_value(b@.subrange(start as int, end as int)) == Some(v as int),
{
    let ghost t = b@.subrange(start as int, end as int);
    let first = b[start];
    assert(t[0] == first);
    if (first == '-' || first == '+') && end - start > 1 {
        assert(t.skip(1) =~= b@.subrange(start + 1, end as int));
        match digits_upto(b, start + 1, end) {
            None => None,
            Some(v) => {
                if first == '-' {
                    let neg: i64 = -v;
                    Some(neg as i32)
                } else if v <= 2147483647 {
                    Some(v as i32)
                } else {
                    None
                }
            },
        }
    } else {
        proof {
            if first == '-' || first == '+' {
                assert(!is_digit(t[0]));
            }
        }
        match digits_upto(b, start, end) {
            None => None,
            Some(v) => {
                if v <= 2147483647 {
                    Some(v as i32)
                } else {
                    None
                }
            },
        }
    }
}

/// The weights written on one line, separated by whitespace; an empty or blank line gives none.
/// Fails on the first word that is not an integer within `i32`.
pub fn read_gross_for_size(line: &str) -> (r: Result<Vec<i32>, WeightError>)
    ensures
        r is Ok <==> forall|k: int|
            0 <= k < words(line@).len() ==> is_weight(
                #[trigger] words(line@)[k],
            ),
        r matches Ok(v) ==> v@.len() == words(line@).len() && forall|k: int|
            0 <= k < v@.len() ==> word_value(#[trigger] words(line@)[k]) == Some(
                v@[k] as int,
            ),
        r matches Err(WeightError::NotAnInteger { start, end }) ==> exists|k: int|
            0 <= k < words(line@).len() && #[trigger] words(line@)[k]
                == line@.subrange(start as int, end as int) && !is_weight(
                words(line@)[k],
            ),
{
    let b = chars_of(line);
    let ghost all = b@;
    let n = b.len();
    let mut out: Vec<i32> = Vec::new();
    let ghost mut seen: Seq<Seq<char>> = Seq::empty();
    let mut i: usize = 0;
    assert(all.skip(0) =~= all);
    while i < n
        invariant
            n == all.len(),
            all == b@,
            all == line@,
            i <= n,
            words(all) == seen + words(all.skip(i as int)),
            out@.len() == seen.len(),
            forall|k: int|
                0 <= k < seen.len() ==> #[trigger] is_weight(seen[k]) && word_value(seen[k]) == Some(
                    out@[k] as int,
                ),
        decreases n - i,
    {
        if white(b[i]) {
            assert(all.skip(i as int).skip(1) =~= all.skip(i + 1));
            i = i + 1;
        } else {
            let mut j: usize = i;
            while j < n && !white(b[j])
                invariant
                    n == all.len(),
                    all == b@,
                    i <= j <= n,
                    i < n,
                    !is_space(all[i as int]),
                    word_len(all.skip(i as int)) == (j - i) + word_len(all.skip(j as int)),
                decreases n - j,
            {
                proof {
                    lemma_word_len_step(all, j as int);
                }
                j = j + 1;
            }
            proof {
                if j < n {
                    assert(is_space(all.skip(j as int)[0]));
                }
                if j == i {
                    lemma_word_len_step(all, i as int);
                    lemma_word_len_bound(all.skip(i + 1));
                }
                let rest = all.skip(i as int);
                lemma_word_len_bound(rest);
                assert(rest.take(j - i) =~= all.subrange(i as int, j as int));
                assert(rest.skip(j - i) =~= all.skip(j as int));
            }
            let ghost word = all.subrange(i as int, j as int);
            match parse_word(&b, i, j) {
                None => {
                    proof {
                        assert(words(all)[seen.len() as int] == word);
                    }
                    return Err(WeightError::NotAnInteger { start: i, end: j });
                },
                Some(v) => {
                    proof {
                        assert(seen + words(all.skip(i as int)) =~= seen.push(word) + words(
                            all.skip(j as int),
                        ));
                        seen = seen.push(word);
                    }
                    out.push(v);
                    i = j;
                },
            }
        }
    }
    proof {
        assert(all.skip(i as int).len() == 0);
        assert(words(all.skip(i as int)) =~= Seq::<Seq<char>>::empty());
        assert(words(all) =~= seen);
        assert forall|k: int| 0 <= k < out@.len() implies word_value(
            #[trigger] words(line@)[k],
        ) == Some(out@[k] as int) by {
            assert(is_weight(seen[k]));
        }
    }
    Ok(out)
}

} // verus!
