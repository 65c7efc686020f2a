//! Character-level helpers shared by the text formats: whitespace trimming,
//! line splitting, decimal formatting and parsing.
use vstd::prelude::*;

verus! {

/// Characters of a string slice, in order.
pub fn chars_of(s: &str) -> (res: Vec<char>)
    ensures
        res@ == s@,
{
    let mut out: Vec<char> = Vec::new();
    for c in it: s.chars()
        invariant
            out@ == it.seq().take(it.index() as int),
    {
        out.push(c);
    }
    out
}

/// A string holding exactly the given characters (`String::from_iter`).
#[verifier::external_body]
pub fn string_from_chars(cs: &[char]) -> (r: String)
    ensures
        r@ == cs@,
{
    cs.iter().collect()
}

/// Unicode `White_Space`, the set `char::is_whitespace` tests.
pub open spec fn is_space_spec(c: char) -> bool {
    let u = c as u32;
    ||| 0x09 <= u <= 0x0D
    ||| u == 0x20
    ||| u == 0x85
    ||| u == 0xA0
    ||| u == 0x1680
    ||| 0x2000 <= u <= 0x200A
    ||| u == 0x2028
    ||| u == 0x2029
    ||| u == 0x202F
    ||| u == 0x205F
    ||| u == 0x3000
}

/// Whether `c` is whitespace.
pub fn is_space(c: char) -> (r: bool)
    ensures
        r == is_space_spec(c),
{
    let u = c as u32;
    (0x09 <= u && u <= 0x0D) || u == 0x20 || u == 0x85 || u == 0xA0 || u == 0x1680 || (0x2000 <= u && u
        <= 0x200A) || u == 0x2028 || u == 0x2029 || u == 0x202F || u == 0x205F || u == 0x3000
}

/// `s` without its leading whitespace.
pub open spec fn trim_start(s: Seq<char>) -> Seq<char>
    decreases s.len(),
{
    if s.len() > 0 && is_space_spec(s[0]) {
        trim_start(s.drop_first())
    } else {
        s
    }
}

/// `s` without its trailing whitespace.
pub open spec fn trim_end(s: Seq<char>) -> Seq<char>
    decreases s.len(),
{
    if s.len() > 0 && is_space_spec(s.last()) {
        trim_end(s.drop_last())
    } else {
        s
    }
}

/// `s` without leading and trailing whitespace (`str::trim`).
pub open spec fn trim_spec(s: Seq<char>) -> Seq<char> {
    trim_end(trim_start(s))
}

/// `s` without leading and trailing whitespace.
pub fn trim(s: &[char]) -> (r: Vec<char>)
    ensures
        r@ == trim_spec(s@),
{
    let mut lo: usize = 0;
    proof {
        assert(s@.subrange(0, s@.len() as int) =~= s@);
    }
    while lo < s.len() && is_space(s[lo])
        invariant
            lo <= s@.len(),
            trim_start(s@) == trim_start(s@.subrange(lo as int, s@.len() as int)),
        decreases s@.len() - lo,
    {
        proof {
            assert(s@.subrange(lo as int, s@.len() as int).drop_first() =~= s@.subrange(lo + 1, s@.len() as int));
        }
        lo = lo + 1;
    }
    let ghost t = s@.subrange(lo as int, s@.len() as int);
    proof {
        assert(trim_start(s@) == t);
    }
    let mut hi: usize = s.len();
    while hi > lo && is_space(s[hi - 1])
        invariant
            lo <= hi <= s@.len(),
            t == s@.subrange(lo as int, s@.len() as int),
            trim_end(t) == trim_end(s@.subrange(lo as int, hi as int)),
        decreases hi,
    {
        proof {
            assert(s@.subrange(lo as int, hi as int).drop_last() =~= s@.subrange(lo as int, hi - 1));
        }
        hi = hi - 1;
    }
    let mut out: Vec<char> = Vec::new();
    let mut i: usize = lo;
    while i < hi
        invariant
            lo <= i <= hi <= s@.len(),
            out@ == s@.subrange(lo as int, i as int),
        decreases hi - i,
    {
        out.push(s[i]);
        proof {
            assert(out@ =~= s@.subrange(lo as int, i + 1));
        }
        i = i + 1;
    }
    out
}

/// Index of the first occurrence of `c` in `s`.
pub open spec fn find_spec(s: Seq<char>, c: char) -> Option<int>
    decreases s.len(),
{
    if s.len() == 0 {
        None
    } else if s[0] == c {
        Some(0)
    } else {
        match find_spec(s.drop_first(), c) {
            Some(i) => Some(i + 1),
            None => None,
        }
    }
}

/// The first occurrence of `c` is at `i`: `s[i] == c` and no `c` before it.
pub proof fn lemma_find(s: Seq<char>, c: char)
    ensures
        match find_spec(s, c) {
            Some(i) => 0 <= i < s.len() && s[i] == c && forall|j: int| 0 <= j < i ==> s[j] != c,
            None => forall|j: int| 0 <= j < s.len() ==> s[j] != c,
        },
    decreases s.len(),
{
    if s.len() > 0 {
        lemma_find(s.drop_first(), c);
        if s[0] != c {
            match find_spec(s.drop_first(), c) {
                Some(i) => {
                    assert forall|j: int| 0 <= j < i + 1 implies s[j] != c by {
                        if j > 0 {
                            assert(s[j] == s.drop_first()[j - 1]);
                        }
                    }
                },
                None => {
                    assert forall|j: int| 0 <= j < s.len() implies s[j] != c by {
                        if j > 0 {
                            assert(s[j] == s.drop_first()[j - 1]);
                        }
                    }
                },
            }
        }
    }
}

/// Index of the first occurrence of `c` in `s`.
pub fn find_char(s: &[char], c: char) -> (r: Option<usize>)
    ensures
        match r {
            Some(i) => find_spec(s@, c) == Some(i as int),
            None => find_spec(s@, c) is None,
        },
{
    proof {
        lemma_find(s@, c);
    }
    let mut i: usize = 0;
    while i < s.len()
        invariant
            i <= s@.len(),
            forall|j: int| 0 <= j < i ==> s@[j] != c,
            match find_spec(s@, c) {
                Some(k) => 0 <= k < s@.len() && s@[k] == c && forall|j: int| 0 <= j < k ==> s@[j] != c,
                None => forall|j: int| 0 <= j < s@.len() ==> s@[j] != c,
            },
        decreases s@.len() - i,
    {
        if s[i] == c {
            return Some(i);
        }
        i = i + 1;
    }
    None
}

/// The pieces of `s` between `'\n'` characters (a trailing empty piece
/// included).
pub open spec fn pieces(s: Seq<char>) -> Seq<Seq<char>>
    decreases s.len(),
{
    match find_spec(s, '\n') {
        None => seq![s],
        Some(i) => {
            if 0 <= i < s.len() {
                seq![s.subrange(0, i)] + pieces(s.subrange(i + 1, s.len() as int))
            } else {
                seq![s]
            }
        },
    }
}

/// Prefixing a piece with newline-free characters extends its first piece.
proof fn lemma_pieces_prefix(a: Seq<char>, b: Seq<char>)
    requires
        forall|j: int| 0 <= j < a.len() ==> a[j] != '\n',
    ensures
        find_spec(a + b, '\n') == match find_spec(b, '\n') {
            Some(i) => Some(i + a.len()),
            None => None::<int>,
        },
    decreases a.len(),
{
    if a.len() > 0 {
        lemma_pieces_prefix(a.drop_first(), b);
        assert((a + b).drop_first() =~= a.drop_first() + b);
    } else {
        assert(a + b =~= b);
    }
}

/// Split `s` at every `'\n'`.
pub fn split_pieces(s: &[char]) -> (r: Vec<Vec<char>>)
    ensures
        r@.len() == pieces(s@).len(),
        forall|i: int| 0 <= i < r@.len() ==> #[trigger] r@[i]@ == pieces(s@)[i],
{
    let mut done: Vec<Vec<char>> = Vec::new();
    let mut cur: Vec<char> = Vec::new();
    let mut i: usize = 0;
    let ghost gdone: Seq<Seq<char>> = Seq::empty();
    proof {
        assert(cur@ + s@.subrange(0, s@.len() as int) =~= s@);
    }
    while i < s.len()
        invariant
            i <= s@.len(),
            done@.len() == gdone.len(),
            forall|k: int| 0 <= k < done@.len() ==> #[trigger] done@[k]@ == gdone[k],
            forall|j: int| 0 <= j < cur@.len() ==> cur@[j] != '\n',
            pieces(s@) == gdone + pieces(cur@ + s@.subrange(i as int, s@.len() as int)),
        decreases s@.len() - i,
    {
        let c = s[i];
        let ghost rest = s@.subrange(i + 1, s@.len() as int);
        proof {
            assert(s@.subrange(i as int, s@.len() as int) =~= seq![c] + rest);
        }
        if c == '\n' {
            proof {
                lemma_pieces_prefix(cur@, seq![c] + rest);
                let w = cur@ + (seq![c] + rest);
                assert(find_spec(w, '\n') == Some(cur@.len() as int)) by {
                    assert((seq![c] + rest)[0] == '\n');
                }
                assert(w.subrange(0, cur@.len() as int) =~= cur@);
                assert(w.subrange(cur@.len() as int + 1, w.len() as int) =~= Seq::<char>::empty() + rest);
                assert(Seq::<char>::empty() + rest =~= rest);
                gdone = gdone.push(cur@);
                assert(pieces(s@) =~= gdone + pieces(Seq::<char>::empty() + rest));
            }
            done.push(cur);
            cur = Vec::new();
            proof {
                assert forall|k: int| 0 <= k < done@.len() implies #[trigger] done@[k]@ == gdone[k] by {}
            }
        } else {
            let ghost old_cur = cur@;
            cur.push(c);
            proof {
                assert(cur@ + rest =~= old_cur + (seq![c] + rest));
                assert(pieces(s@) == gdone + pieces(cur@ + rest));
                assert(s@.subrange(i + 1, s@.len() as int) == rest);
            }
        }
        i = i + 1;
    }
    proof {
        assert(cur@ + s@.subrange(s@.len() as int, s@.len() as int) =~= cur@);
        lemma_pieces_prefix(cur@, Seq::<char>::empty());
        assert(cur@ + Seq::<char>::empty() =~= cur@);
        assert(find_spec(Seq::<char>::empty(), '\n') is None);
        assert(pieces(cur@) == seq![cur@]);
        gdone = gdone.push(cur@);
    }
    done.push(cur);
    proof {
        assert(pieces(s@) =~= gdone);
    }
    done
}

/// The character of decimal digit `d`.
pub open spec fn digit_char(d: int) -> char {
    if d == 0 {
        '0'
    } else if d == 1 {
        '1'
    } else if d == 2 {
        '2'
    } else if d == 3 {
        '3'
    } else if d == 4 {
        '4'
    } else if d == 5 {
        '5'
    } else if d == 6 {
        '6'
    } else if d == 7 {
        '7'
    } else if d == 8 {
        '8'
    } else {
        '9'
    }
}

/// Decimal digits of `n`, most significant first, without leading zeros.
pub open spec fn dec(n: nat) -> Seq<char>
    decreases n,
{
    if n < 10 {
        seq![digit_char(n as int)]
    } else {
        dec(n / 10).push(digit_char((n % 10) as int))
    }
}

/// Decimal text of an integer (`{}` formatting).
pub open spec fn int_text(v: int) -> Seq<char> {
    if v < 0 {
        seq!['-'] + dec((-v) as nat)
    } else {
        dec(v as nat)
    }
}

/// Decimal text of an integer with its sign always written (`{:+}`).
pub open spec fn signed_text(v: int) -> Seq<char> {
    if v < 0 {
        seq!['-'] + dec((-v) as nat)
    } else {
        seq!['+'] + dec(v as nat)
    }
}

/// `s` padded on the left with `'0'` to at least `w` characters.
pub open spec fn zero_pad(s: Seq<char>, w: nat) -> Seq<char> {
    if s.len() >= w {
        s
    } else {
        Seq::new((w - s.len()) as nat, |i: int| '0') + s
    }
}

/// The character of a decimal digit.
pub fn digit_to_char(d: u64) -> (r: char)
    requires
        d < 10,
    ensures
        r == digit_char(d as int),
{
    match d {
        0 => '0',
        1 => '1',
        2 => '2',
        3 => '3',
        4 => '4',
        5 => '5',
        6 => '6',
        7 => '7',
        8 => '8',
        _ => '9',
    }
}

/// Append the decimal digits of `n`.
pub fn push_dec(out: &mut Vec<char>, n: u64)
    ensures
        final(out)@ == old(out)@ + dec(n as nat),
    decreases n,
{
    if n >= 10 {
        push_dec(out, n / 10);
    }
    out.push(digit_to_char(n % 10));
    proof {
        if n >= 10 {
            assert(dec(n as nat) == dec((n / 10) as nat).push(digit_char((n % 10) as int)));
        }
        assert(final(out)@ =~= old(out)@ + dec(n as nat));
    }
}

/// Number of decimal digits of `n`.
pub proof fn lemma_dec_len(n: nat)
    ensures
        dec(n).len() >= 1,
        n < 10 ==> dec(n).len() == 1,
        10 <= n < 100 ==> dec(n).len() == 2,
    decreases n,
{
    if n >= 10 {
        lemma_dec_len(n / 10);
    }
}

/// Append the decimal digits of `n`, padded with `'0'` to at least `w`
/// characters (`{:0w}`).
pub fn push_dec_padded(out: &mut Vec<char>, n: u64, w: usize)
    ensures
        final(out)@ == old(out)@ + zero_pad(dec(n as nat), w as nat),
{
    let mut digits: Vec<char> = Vec::new();
    push_dec(&mut digits, n);
    proof {
        assert(digits@ =~= dec(n as nat));
    }
    let ghost o0 = out@;
    let len = digits.len();
    if len < w {
        let mut k: usize = 0;
        while k < w - len
            invariant
                k <= w - len,
                len < w,
                out@ == o0 + Seq::new(k as nat, |i: int| '0'),
            decreases w - len - k,
        {
            out.push('0');
            proof {
                assert(out@ =~= o0 + Seq::new((k + 1) as nat, |i: int| '0'));
            }
            k = k + 1;
        }
    }
    let ghost o1 = out@;
    let mut i: usize = 0;
    while i < digits.len()
        invariant
            i <= digits@.len(),
            out@ == o1 + digits@.subrange(0, i as int),
        decreases digits@.len() - i,
    {
        out.push(digits[i]);
        proof {
            assert(out@ =~= o1 + digits@.subrange(0, i + 1));
        }
        i = i + 1;
    }
    proof {
        assert(digits@.subrange(0, digits@.len() as int) =~= digits@);
        assert(out@ =~= o0 + zero_pad(dec(n as nat), w as nat));
    }
}

/// An ASCII decimal digit.
pub open spec fn is_digit(c: char) -> bool {
    '0' <= c && c <= '9'
}

/// Value of a decimal digit character.
pub open spec fn digit_val(c: char) -> int {
    c as int - '0' as int
}

/// Every character is a decimal digit.
pub open spec fn all_digits(s: Seq<char>) -> bool {
    forall|i: int| 0 <= i < s.len() ==> #[trigger] is_digit(s[i])
}

/// Value of a string of decimal digits.
pub open spec fn digits_value(s: Seq<char>) -> int
    decreases s.len(),
{
    if s.len() == 0 {
        0
    } else {
        digits_value(s.drop_last()) * 10 + digit_val(s.last())
    }
}

/// Integer syntax of `str::parse` for the integer types: an optional `+` or
/// `-`, then one or more decimal digits, nothing else.
pub open spec fn parse_int_spec(s: Seq<char>) -> Option<int> {
    if s.len() > 0 && (s[0] == '+' || s[0] == '-') {
        let d = s.drop_first();
        if d.len() > 0 && all_digits(d) {
            Some(
                if s[0] == '-' {
                    -digits_value(d)
                } else {
                    digits_value(d)
                },
            )
        } else {
            None
        }
    } else if s.len() > 0 && all_digits(s) {
        Some(digits_value(s))
    } else {
        None
    }
}

/// The parsed value when it lies in `[lo, hi]`.
pub open spec fn parse_in_range(s: Seq<char>, lo: int, hi: int) -> Option<int> {
    match parse_int_spec(s) {
        Some(v) => if lo <= v <= hi {
            Some(v)
        } else {
            None
        },
        None => None,
    }
}

/// Digit strings have non-negative values that grow with their length.
proof fn lemma_digits_mono(s: Seq<char>, k: int)
    requires
        all_digits(s),
        0 <= k <= s.len(),
    ensures
        0 <= digits_value(s.subrange(0, k)) <= digits_value(s),
    decreases s.len() - k,
{
    lemma_digits_nonneg(s);
    if k < s.len() {
        lemma_digits_mono(s.drop_last(), k);
        assert(s.drop_last().subrange(0, k) =~= s.subrange(0, k));
        assert(is_digit(s[s.len() - 1]));
    } else {
        assert(s.subrange(0, k) =~= s);
    }
}

/// Digit strings have non-negative values.
proof fn lemma_digits_nonneg(s: Seq<char>)
    requires
        all_digits(s),
    ensures
        digits_value(s) >= 0,
    decreases s.len(),
{
    if s.len() > 0 {
        lemma_digits_nonneg(s.drop_last());
        assert(is_digit(s[s.len() - 1]));
    }
}

/// Parse an integer with the syntax of `str::parse`, accepting only values in
/// `[lo, hi]`.
pub fn parse_int(s: &[char], lo: i32, hi: i32) -> (r: Option<i32>)
    requires
        -100000 <= lo <= 0 <= hi <= 100000,
    ensures
        match r {
            Some(v) => parse_in_range(s@, lo as int, hi as int) == Some(v as int),
            None => parse_in_range(s@, lo as int, hi as int) is None,
        },
{
    if s.len() == 0 {
        return None;
    }
    let neg = s[0] == '-';
    let signed = s[0] == '+' || s[0] == '-';
    let start: usize = if signed { 1 } else { 0 };
    if start == s.len() {
        return None;
    }
    let ghost d = s@.subrange(start as int, s@.len() as int);
    proof {
        if signed {
            assert(d =~= s@.drop_first());
        } else {
            assert(d =~= s@);
        }
    }
    let limit: i32 = if neg { -lo } else { hi };
    let mut acc: i32 = 0;
    let mut i: usize = start;
    while i < s.len()
        invariant
            start <= i <= s@.len(),
            d == s@.subrange(start as int, s@.len() as int),
            0 <= limit <= 100000,
            limit == if neg { -lo } else { hi as int },
            -100000 <= lo <= 0 <= hi <= 100000,
            parse_int_spec(s@) == if all_digits(d) {
                Some(if neg { -digits_value(d) } else { digits_value(d) })
            } else {
                None
            },
            all_digits(s@.subrange(start as int, i as int)),
            acc == digits_value(s@.subrange(start as int, i as int)),
            0 <= acc <= limit,
        decreases s@.len() - i,
    {
        let c = s[i];
        if !('0' <= c && c <= '9') {
            proof {
                assert(!is_digit(d[i - start]));
            }
            return None;
        }
        let dv = (c as u32 - '0' as u32) as i32;
        let ghost pre = s@.subrange(start as int, i as int);
        let ghost nxt = s@.subrange(start as int, i + 1);
        proof {
            assert(nxt.drop_last() =~= pre);
            assert(nxt.last() == c);
            assert forall|j: int| 0 <= j < nxt.len() implies #[trigger] is_digit(nxt[j]) by {
                if j < pre.len() {
                    assert(nxt[j] == pre[j]);
                }
            }
        }
        acc = acc * 10 + dv;
        if acc > limit {
            proof {
                if all_digits(d) {
                    lemma_digits_mono(d, i + 1 - start);
                    assert(d.subrange(0, i + 1 - start) =~= nxt);
                }
            }
            return None;
        }
        i = i + 1;
    }
    proof {
        assert(s@.subrange(start as int, i as int) =~= d);
    }
    Some(if neg { -acc } else { acc })
}

/// Append the decimal text of `v` (`{}`).
pub fn push_int(out: &mut Vec<char>, v: i32)
    ensures
        final(out)@ == old(out)@ + int_text(v as int),
{
    if v < 0 {
        out.push('-');
        let mag = (-(v as i64)) as u64;
        push_dec(out, mag);
        proof {
            assert(final(out)@ =~= old(out)@ + int_text(v as int));
        }
    } else {
        push_dec(out, v as u64);
    }
}

/// Append the decimal text of `v` with its sign always written (`{:+}`).
pub fn push_signed(out: &mut Vec<char>, v: i32)
    ensures
        final(out)@ == old(out)@ + signed_text(v as int),
{
    if v < 0 {
        out.push('-');
        let mag = (-(v as i64)) as u64;
        push_dec(out, mag);
    } else {
        out.push('+');
        push_dec(out, v as u64);
    }
    proof {
        assert(final(out)@ =~= old(out)@ + signed_text(v as int));
    }
}

/// Append all of `s`.
pub fn push_all(out: &mut Vec<char>, s: &[char])
    ensures
        final(out)@ == old(out)@ + s@,
{
    let ghost o0 = out@;
    let mut i: usize = 0;
    while i < s.len()
        invariant
            i <= s@.len(),
            out@ == o0 + s@.subrange(0, i as int),
        decreases s@.len() - i,
    {
        out.push(s[i]);
        proof {
            assert(out@ =~= o0 + s@.subrange(0, i + 1));
        }
        i = i + 1;
    }
    proof {
        assert(s@.subrange(0, s@.len() as int) =~= s@);
    }
}

/// Append the characters of a string slice.
pub fn push_str(out: &mut Vec<char>, s: &str)
    ensures
        final(out)@ == old(out)@ + s@,
{
    let cs = chars_of(s);
    push_all(out, &cs);
}

/// The characters `s[lo..hi]`.
pub fn slice_of(s: &[char], lo: usize, hi: usize) -> (r: Vec<char>)
    requires
        lo <= hi <= s@.len(),
    ensures
        r@ == s@.subrange(lo as int, hi as int),
{
    let mut out: Vec<char> = Vec::new();
    let mut i: usize = lo;
    while i < hi
        invariant
            lo <= i <= hi <= s@.len(),
            out@ == s@.subrange(lo as int, i as int),
        decreases hi - i,
    {
        out.push(s[i]);
        proof {
            assert(out@ =~= s@.subrange(lo as int, i + 1));
        }
        i = i + 1;
    }
    out
}

/// Digit characters are digits with their value.
proof fn lemma_digit_char(d: int)
    requires
        0 <= d < 10,
    ensures
        is_digit(digit_char(d)),
        digit_val(digit_char(d)) == d,
{
}

/// The decimal text of `n` is a non-empty digit string with value `n`.
pub proof fn lemma_dec(n: nat)
    ensures
        dec(n).len() >= 1,
        all_digits(dec(n)),
        digits_value(dec(n)) == n,
    decreases n,
{
    if n < 10 {
        lemma_digit_char(n as int);
        assert(dec(n).drop_last() =~= Seq::<char>::empty());
        assert(digits_value(dec(n)) == digits_value(dec(n).drop_last()) * 10 + digit_val(dec(n).last()));
    } else {
        lemma_dec(n / 10);
        lemma_digit_char((n % 10) as int);
        let s = dec(n);
        assert(s.drop_last() =~= dec(n / 10));
        assert(s.last() == digit_char((n % 10) as int));
        assert(digits_value(s) == digits_value(s.drop_last()) * 10 + digit_val(s.last()));
        assert(n == (n / 10) * 10 + n % 10);
        assert forall|i: int| 0 <= i < s.len() implies #[trigger] is_digit(s[i]) by {
            if i < s.len() - 1 {
                assert(s[i] == dec(n / 10)[i]);
            }
        }
    }
}

/// Parsing the decimal text of an integer gives it back.
pub proof fn lemma_int_text_parse(v: int)
    ensures
        parse_int_spec(int_text(v)) == Some(v),
        int_text(v).len() >= 1,
        forall|i: int| 0 <= i < int_text(v).len() ==> #[trigger] int_text(v)[i] == '-' || is_digit(int_text(v)[i]),
        is_digit(int_text(v).last()),
        int_text(v)[0] == '-' || is_digit(int_text(v)[0]),
{
    if v < 0 {
        let d = dec((-v) as nat);
        lemma_dec((-v) as nat);
        let t = seq!['-'] + d;
        assert(t.drop_first() =~= d);
        assert forall|i: int| 0 <= i < t.len() implies #[trigger] t[i] == '-' || is_digit(t[i]) by {
            if i > 0 {
                assert(t[i] == d[i - 1]);
            }
        }
        assert(t.last() == d.last());
        assert(all_digits(t.drop_first()));
    } else {
        lemma_dec(v as nat);
        assert(is_digit(dec(v as nat)[0]));
    }
}

/// Parsing the signed decimal text of an integer gives it back.
pub proof fn lemma_signed_text_parse(v: int)
    ensures
        parse_int_spec(signed_text(v)) == Some(v),
        signed_text(v).len() >= 2,
        is_digit(signed_text(v).last()),
{
    let d = if v < 0 {
        dec((-v) as nat)
    } else {
        dec(v as nat)
    };
    if v < 0 {
        lemma_dec((-v) as nat);
    } else {
        lemma_dec(v as nat);
    }
    let t = signed_text(v);
    assert(t.drop_first() =~= d);
    assert(t.last() == d.last());
}

/// The first `c` of `p + [c] + q`, when `p` holds no `c`, is right after `p`.
pub proof fn lemma_find_after(p: Seq<char>, c: char, q: Seq<char>)
    requires
        forall|i: int| 0 <= i < p.len() ==> p[i] != c,
    ensures
        find_spec(p + seq![c] + q, c) == Some(p.len() as int),
    decreases p.len(),
{
    if p.len() > 0 {
        lemma_find_after(p.drop_first(), c, q);
        assert((p + seq![c] + q).drop_first() =~= p.drop_first() + seq![c] + q);
    } else {
        assert((p + seq![c] + q)[0] == c);
    }
}

/// A text that starts and ends with non-whitespace is its own trim.
pub proof fn lemma_trim_fixed(s: Seq<char>)
    requires
        s.len() > 0,
        !is_space_spec(s[0]),
        !is_space_spec(s.last()),
    ensures
        trim_spec(s) == s,
{
}

/// A text without `'\n'` is a single piece.
pub proof fn lemma_pieces_single(a: Seq<char>)
    requires
        forall|i: int| 0 <= i < a.len() ==> a[i] != '\n',
    ensures
        pieces(a) == seq![a],
{
    lemma_find(a, '\n');
}

/// A newline-free text followed by a newline starts the pieces.
pub proof fn lemma_pieces_cons(a: Seq<char>, b: Seq<char>)
    requires
        forall|i: int| 0 <= i < a.len() ==> a[i] != '\n',
    ensures
        pieces(a + seq!['\n'] + b) == seq![a] + pieces(b),
{
    let w = a + seq!['\n'] + b;
    lemma_find_after(a, '\n', b);
    assert(w.subrange(0, a.len() as int) =~= a);
    assert(w.subrange(a.len() as int + 1, w.len() as int) =~= b);
}

/// `needle` occurs in `hay` at `i`.
pub open spec fn occurs_at(hay: Seq<char>, needle: Seq<char>, i: int) -> bool {
    0 <= i && i + needle.len() <= hay.len() && hay.subrange(i, i + needle.len()) == needle
}

/// The first occurrence of `needle` in `hay` at or after `i`.
pub open spec fn find_sub_from(hay: Seq<char>, needle: Seq<char>, i: int) -> Option<int>
    decreases hay.len() + 1 - i,
{
    if i < 0 || i + needle.len() > hay.len() {
        None
    } else if occurs_at(hay, needle, i) {
        Some(i)
    } else {
        find_sub_from(hay, needle, i + 1)
    }
}

/// The first occurrence of `needle` in `hay` (`str::find`, in characters).
pub open spec fn find_sub_spec(hay: Seq<char>, needle: Seq<char>) -> Option<int> {
    find_sub_from(hay, needle, 0)
}

/// What [`find_sub_from`] finds: an occurrence with none before it.
pub proof fn lemma_find_sub(hay: Seq<char>, needle: Seq<char>, i: int)
    requires
        0 <= i,
    ensures
        match find_sub_from(hay, needle, i) {
            Some(k) => i <= k && occurs_at(hay, needle, k) && forall|j: int| i <= j < k ==> !occurs_at(hay, needle, j),
            None => forall|j: int| i <= j ==> !occurs_at(hay, needle, j),
        },
    decreases hay.len() + 1 - i,
{
    if i + needle.len() <= hay.len() && !occurs_at(hay, needle, i) {
        lemma_find_sub(hay, needle, i + 1);
    }
}

/// The first occurrence is `k` when `needle` occurs at `k` and nowhere before.
pub proof fn lemma_find_sub_at(hay: Seq<char>, needle: Seq<char>, i: int, k: int)
    requires
        0 <= i <= k,
        occurs_at(hay, needle, k),
        forall|j: int| i <= j < k ==> !occurs_at(hay, needle, j),
    ensures
        find_sub_from(hay, needle, i) == Some(k),
    decreases k - i,
{
    if i < k {
        lemma_find_sub_at(hay, needle, i + 1, k);
    }
}

/// Index of the first occurrence of `needle` in `hay`.
pub fn find_sub(hay: &[char], needle: &[char]) -> (r: Option<usize>)
    ensures
        match r {
            Some(i) => find_sub_spec(hay@, needle@) == Some(i as int),
            None => find_sub_spec(hay@, needle@) is None,
        },
{
    if needle.len() > hay.len() {
        return None;
    }
    let mut i: usize = 0;
    while i <= hay.len() - needle.len()
        invariant
            needle@.len() <= hay@.len(),
            i <= hay@.len() - needle@.len() + 1,
            find_sub_spec(hay@, needle@) == find_sub_from(hay@, needle@, i as int),
        decreases hay@.len() - needle@.len() + 1 - i,
    {
        let mut k: usize = 0;
        let mut same = true;
        while k < needle.len()
            invariant
                k <= needle@.len(),
                i + needle.len() <= hay.len(),
                same == forall|j: int| 0 <= j < k ==> hay@[i + j] == needle@[j],
            decreases needle@.len() - k,
        {
            if hay[i + k] != needle[k] {
                same = false;
            }
            k = k + 1;
        }
        proof {
            if same {
                assert(hay@.subrange(i as int, i + needle@.len()) =~= needle@);
            } else {
                let j = choose|j: int| 0 <= j < needle@.len() && hay@[i + j] != needle@[j];
                assert(hay@.subrange(i as int, i + needle@.len())[j] != needle@[j]);
            }
        }
        if same {
            return Some(i);
        }
        i = i + 1;
    }
    None
}

/// Whether two strings hold the same characters.
pub fn str_eq(a: &str, b: &str) -> (r: bool)
    ensures
        r == (a@ == b@),
{
    let ac = chars_of(a);
    let bc = chars_of(b);
    if ac.len() != bc.len() {
        return false;
    }
    let mut i: usize = 0;
    while i < ac.len()
        invariant
            i <= ac@.len() == bc@.len(),
            ac@ == a@,
            bc@ == b@,
            forall|j: int| 0 <= j < i ==> ac@[j] == bc@[j],
        decreases ac@.len() - i,
    {
        if ac[i] != bc[i] {
            proof {
                assert(ac@[i as int] != bc@[i as int]);
            }
            return false;
        }
        i = i + 1;
    }
    proof {
        assert(ac@ =~= bc@);
    }
    true
}

} // verus!
