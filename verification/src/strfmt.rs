//! Fixed-width and decimal text for on-disk names.
//!
//! Storage paths sort lexically, so every numeric field in a name is written
//! fixed-width: slots as sixteen lowercase hex digits. Log files carry a
//! plain decimal index, and replay parses it back to visit files in index
//! order.

use vstd::prelude::*;

verus! {

/// The lowercase hex digit for a value below sixteen.
pub open spec fn hex_char(d: int) -> char {
    if d == 0 {
        '0'
    } else if d == 1 {
        '1'
    } else if d == 2 {
        '2'
    } else if d == 3 {
        '3'
    } else if d == 4 {
        '4'
    } else if d == 5 {
        '5'
    } else if d == 6 {
        '6'
    } else if d == 7 {
        '7'
    } else if d == 8 {
        '8'
    } else if d == 9 {
        '9'
    } else if d == 10 {
        'a'
    } else if d == 11 {
        'b'
    } else if d == 12 {
        'c'
    } else if d == 13 {
        'd'
    } else if d == 14 {
        'e'
    } else {
        'f'
    }
}

/// Hex digit `i` (from the left) of the sixteen-digit form of `n`.
pub open spec fn hex_digit_of(n: u64, i: int) -> int {
    ((n >> ((60 - 4 * i) as u64)) & 0xf) as int
}

/// The sixteen-digit lowercase hex form of `n`.
pub open spec fn spec_hex16(n: u64) -> Seq<char> {
    Seq::new(16, |i: int| hex_char(hex_digit_of(n, i)))
}

/// The one-character string for a hex digit.
fn hex_digit_str(d: u64) -> (r: &'static str)
    requires
        d < 16,
    ensures
        r@ =~= seq![hex_char(d as int)],
{
    let r: &'static str = if d == 0 {
        "0"
    } else if d == 1 {
        "1"
    } else if d == 2 {
        "2"
    } else if d == 3 {
        "3"
    } else if d == 4 {
        "4"
    } else if d == 5 {
        "5"
    } else if d == 6 {
        "6"
    } else if d == 7 {
        "7"
    } else if d == 8 {
        "8"
    } else if d == 9 {
        "9"
    } else if d == 10 {
        "a"
    } else if d == 11 {
        "b"
    } else if d == 12 {
        "c"
    } else if d == 13 {
        "d"
    } else if d == 14 {
        "e"
    } else {
        "f"
    };
    proof {
        reveal_strlit("0");
        reveal_strlit("1");
        reveal_strlit("2");
        reveal_strlit("3");
        reveal_strlit("4");
        reveal_strlit("5");
        reveal_strlit("6");
        reveal_strlit("7");
        reveal_strlit("8");
        reveal_strlit("9");
        reveal_strlit("a");
        reveal_strlit("b");
        reveal_strlit("c");
        reveal_strlit("d");
        reveal_strlit("e");
        reveal_strlit("f");
    }
    r
}

/// Writes `n` as sixteen lowercase hex digits, the fixed-width form every
/// slot number takes inside a storage path.
pub fn format_hex16(n: u64) -> (r: String)
    ensures
        r@ == spec_hex16(n),
{
    let mut s = String::new();
    let mut i: usize = 0;
    while i < 16
        invariant
            i <= 16,
            s@ =~= spec_hex16(n).take(i as int),
        decreases 16 - i,
    {
        let sh: u64 = 60 - 4 * (i as u64);
        let d: u64 = (n >> sh) & 0xf;
        assert(((n >> sh) & 0xf) < 16) by (bit_vector);
        assert(d == hex_digit_of(n, i as int));
        s.append(hex_digit_str(d));
        assert(s@ =~= spec_hex16(n).take(i + 1));
        i = i + 1;
    }
    assert(spec_hex16(n).take(16) =~= spec_hex16(n));
    s
}

/// The decimal digit character for a value below ten.
pub open spec fn dec_char(d: int) -> char {
    if d == 0 {
        '0'
    } else if d == 1 {
        '1'
    } else if d == 2 {
        '2'
    } else if d == 3 {
        '3'
    } else if d == 4 {
        '4'
    } else if d == 5 {
        '5'
    } else if d == 6 {
        '6'
    } else if d == 7 {
        '7'
    } else if d == 8 {
        '8'
    } else {
        '9'
    }
}

/// The canonical decimal form of `n`: no leading zeros, `"0"` for zero.
pub open spec fn spec_dec(n: u64) -> Seq<char>
    decreases n,
{
    if n < 10 {
        seq![dec_char(n as int)]
    } else {
        spec_dec(n / 10).push(dec_char((n % 10) as int))
    }
}

/// The one-character string for a decimal digit.
fn dec_digit_str(d: u64) -> (r: &'static str)
    requires
        d < 10,
    ensures
        r@ =~= seq![dec_char(d as int)],
{
    let r: &'static str = if d == 0 {
        "0"
    } else if d == 1 {
        "1"
    } else if d == 2 {
        "2"
    } else if d == 3 {
        "3"
    } else if d == 4 {
        "4"
    } else if d == 5 {
        "5"
    } else if d == 6 {
        "6"
    } else if d == 7 {
        "7"
    } else if d == 8 {
        "8"
    } else {
        "9"
    };
    proof {
        reveal_strlit("0");
        reveal_strlit("1");
        reveal_strlit("2");
        reveal_strlit("3");
        reveal_strlit("4");
        reveal_strlit("5");
        reveal_strlit("6");
        reveal_strlit("7");
        reveal_strlit("8");
        reveal_strlit("9");
    }
    r
}

/// Writes `n` in canonical decimal.
pub fn format_dec(n: u64) -> (r: String)
    ensures
        r@ == spec_dec(n),
    decreases n,
{
    if n < 10 {
        let mut s = String::new();
        s.append(dec_digit_str(n));
        assert(s@ =~= spec_dec(n));
        s
    } else {
        let mut s = format_dec(n / 10);
        s.append(dec_digit_str(n % 10));
        assert(s@ =~= spec_dec(n));
        s
    }
}

/// Whether `c` is a decimal digit character.
pub open spec fn is_dec_digit(c: char) -> bool {
    48 <= c as int <= 57
}

/// The number a sequence of decimal digit characters denotes.
pub open spec fn dec_val(s: Seq<char>) -> int
    decreases s.len(),
{
    if s.len() == 0 {
        0
    } else {
        dec_val(s.drop_last()) * 10 + (s.last() as int - 48)
    }
}

/// A digit string denotes a number no smaller than any of its prefixes
/// denotes, and never a negative one.
pub proof fn lemma_dec_val_prefix(s: Seq<char>, i: int)
    requires
        0 <= i <= s.len(),
        forall|j: int| 0 <= j < s.len() ==> is_dec_digit(#[trigger] s[j]),
    ensures
        0 <= dec_val(s.take(i)) <= dec_val(s),
    decreases s.len() - i,
{
    if i == s.len() {
        assert(s.take(i) =~= s);
        lemma_dec_val_nonneg(s);
    } else {
        lemma_dec_val_prefix(s, i + 1);
        lemma_dec_val_nonneg(s.take(i));
        assert(s.take(i + 1).drop_last() =~= s.take(i));
        assert(s.take(i + 1).last() == s[i]);
        assert(dec_val(s.take(i + 1)) == dec_val(s.take(i)) * 10 + (s[i] as int - 48));
        assert(dec_val(s.take(i)) * 10 >= dec_val(s.take(i))) by (nonlinear_arith)
            requires
                dec_val(s.take(i)) >= 0,
        ;
    }
}

/// A digit string never denotes a negative number.
pub proof fn lemma_dec_val_nonneg(s: Seq<char>)
    requires
        forall|j: int| 0 <= j < s.len() ==> is_dec_digit(#[trigger] s[j]),
    ensures
        dec_val(s) >= 0,
    decreases s.len(),
{
    if s.len() > 0 {
        lemma_dec_val_nonneg(s.drop_last());
        assert(dec_val(s.drop_last()) * 10 >= 0) by (nonlinear_arith)
            requires
                dec_val(s.drop_last()) >= 0,
        ;
    }
}

/// Reads the decimal number written in `s[from..to]`.
///
/// Returns the denoted value exactly when that span is nonempty, all
/// digits, and the value fits in 64 bits.
pub fn parse_dec_range(s: &str, from: usize, to: usize) -> (r: Option<u64>)
    requires
        from <= to <= s@.len(),
    ensures
        r is Some <==> {
            &&& from < to
            &&& forall|j: int| from <= j < to ==> is_dec_digit(#[trigger] s@[j])
            &&& dec_val(s@.subrange(from as int, to as int)) <= u64::MAX
        },
        r matches Some(v) ==> v == dec_val(s@.subrange(from as int, to as int)),
{
    if from >= to {
        return None;
    }
    let ghost span = s@.subrange(from as int, to as int);
    let mut acc: u64 = 0;
    let mut i: usize = from;
    while i < to
        invariant
            from <= i <= to <= s@.len(),
            span == s@.subrange(from as int, to as int),
            forall|j: int| from <= j < i ==> is_dec_digit(#[trigger] s@[j]),
            acc == dec_val(span.take(i - from)),
        decreases to - i,
    {
        let c = s.get_char(i);
        let code: u32 = c as u32;
        if code < 48 || code > 57 {
            return None;
        }
        let d: u64 = (code - 48) as u64;
        proof {
            assert(span.take(i - from + 1).drop_last() =~= span.take(i - from));
            assert(span.take(i - from + 1).last() == s@[i as int]);
        }
        if acc > (u64::MAX - d) / 10 {
            // The span denotes more than 64 bits can hold: every longer
            // prefix only grows the value.
            proof {
                assert(acc * 10 + d > u64::MAX) by (nonlinear_arith)
                    requires
                        acc > (u64::MAX as int - d) / 10,
                        0 <= d <= 9,
                        acc >= 0,
                ;
                if forall|j: int| from <= j < to ==> is_dec_digit(#[trigger] s@[j]) {
                    assert(forall|j: int| 0 <= j < span.len() ==> is_dec_digit(
                        #[trigger] span[j],
                    ));
                    lemma_dec_val_prefix(span, i - from + 1);
                    assert(dec_val(span) >= dec_val(span.take(i - from + 1)));
                }
            }
            return None;
        }
        proof {
            assert(acc * 10 + d <= u64::MAX) by (nonlinear_arith)
                requires
                    acc <= (u64::MAX as int - d) / 10,
                    0 <= d <= 9,
                    acc >= 0,
            ;
        }
        acc = acc * 10 + d;
        i = i + 1;
    }
    proof {
        assert(span.take(to - from) =~= span);
        assert(forall|j: int| 0 <= j < span.len() ==> is_dec_digit(#[trigger] span[j]));
    }
    Some(acc)
}

/// The largest of the listed indices, or zero when none are listed: how the
/// log picks up at the latest rotation file found on disk.
pub fn latest_file_index(indices: &Vec<u64>) -> (r: u64)
    ensures
        forall|i: int| 0 <= i < indices@.len() ==> #[trigger] indices@[i] <= r,
        r == 0 || exists|i: int| 0 <= i < indices@.len() && #[trigger] indices@[i] == r,
{
    let mut best: u64 = 0;
    let mut i: usize = 0;
    while i < indices.len()
        invariant
            i <= indices@.len(),
            forall|j: int| 0 <= j < i ==> #[trigger] indices@[j] <= best,
            best == 0 || exists|j: int| 0 <= j < i && #[trigger] indices@[j] == best,
        decreases indices@.len() - i,
    {
        if indices[i] >= best {
            best = indices[i];
        }
        i = i + 1;
    }
    best
}

} // verus!
