use vstd::prelude::*;
use vstd::string::*;

verus! {

/// Whether a character is white space in the sense of Unicode's White_Space
/// property (what `char::is_whitespace` and `str::trim` go by).
pub open spec fn is_white(c: char) -> bool {
    let u = c as u32;
    ||| (0x09 <= u && u <= 0x0d)
    ||| u == 0x20
    ||| u == 0x85
    ||| u == 0xa0
    ||| u == 0x1680
    ||| (0x2000 <= u && u <= 0x200a)
    ||| u == 0x2028
    ||| u == 0x2029
    ||| u == 0x202f
    ||| u == 0x205f
    ||| u == 0x3000
}

/// Text that `trim` would make empty: only white space.
pub open spec fn blank(s: Seq<char>) -> bool {
    forall|i: int| 0 <= i < s.len() ==> is_white(#[trigger] s[i])
}

/// The length of text in bytes, as UTF-8, as `str::len` reports it.
pub open spec fn blen(s: Seq<char>) -> int {
    (vstd::utf8::encode_utf8(s).len() as usize) as int
}

/// Whether `c` is white space.
pub fn char_is_white(c: char) -> (r: bool)
    ensures
        r == is_white(c),
{
    let u = c as u32;
    (0x09 <= u && u <= 0x0d) || u == 0x20 || u == 0x85 || u == 0xa0 || u == 0x1680 || (0x2000 <= u
        && u <= 0x200a) || u == 0x2028 || u == 0x2029 || u == 0x202f || u == 0x205f || u == 0x3000
}

/// Whether the text is only white space (so that trimming it leaves nothing).
pub fn is_blank(s: &str) -> (r: bool)
    ensures
        r == blank(s@),
{
    let n = s.unicode_len();
    let mut i: usize = 0;
    while i < n
        invariant
            i <= n,
            n == s@.len(),
            forall|j: int| 0 <= j < i ==> is_white(#[trigger] s@[j]),
        decreases n - i,
    {
        if !char_is_white(s.get_char(i)) {
            return false;
        }
        i += 1;
    }
    true
}

/// The decimal digit for `d` (below ten).
pub open spec fn digit_char(d: int) -> char {
    if d == 0 {
        '0'
    } else if d == 1 {
        '1'
    } else if d == 2 {
        '2'
    } else if d == 3 {
        '3'
    } else if d == 4 {
        '4'
    } else if d == 5 {
        '5'
    } else if d == 6 {
        '6'
    } else if d == 7 {
        '7'
    } else if d == 8 {
        '8'
    } else {
        '9'
    }
}

/// The decimal digits of a natural number, most significant first, without
/// leading zeros (a single `0` for zero).
pub open spec fn decimal_nat(n: nat) -> Seq<char>
    decreases n,
{
    if n < 10 {
        seq![digit_char(n as int)]
    } else {
        decimal_nat(n / 10) + seq![digit_char((n % 10) as int)]
    }
}

/// The decimal form of an integer, with a minus sign when it is negative.
pub open spec fn decimal(n: int) -> Seq<char> {
    if n < 0 {
        seq!['-'] + decimal_nat((-n) as nat)
    } else {
        decimal_nat(n as nat)
    }
}

fn digit_str(d: u64) -> (s: &'static str)
    requires
        d < 10,
    ensures
        s@ == seq![digit_char(d as int)],
{
    proof {
        reveal_strlit("0");
        reveal_strlit("1");
        reveal_strlit("2");
        reveal_strlit("3");
        reveal_strlit("4");
        reveal_strlit("5");
        reveal_strlit("6");
        reveal_strlit("7");
        reveal_strlit("8");
        reveal_strlit("9");
    }
    let s = if d == 0 {
        "0"
    } else if d == 1 {
        "1"
    } else if d == 2 {
        "2"
    } else if d == 3 {
        "3"
    } else if d == 4 {
        "4"
    } else if d == 5 {
        "5"
    } else if d == 6 {
        "6"
    } else if d == 7 {
        "7"
    } else if d == 8 {
        "8"
    } else {
        "9"
    };
    proof {
        assert(s@ =~= seq![digit_char(d as int)]);
    }
    s
}

/// Appends the decimal digits of `n` to `out`.
pub fn push_decimal_u64(out: &mut String, n: u64)
    ensures
        final(out)@ == old(out)@ + decimal_nat(n as nat),
    decreases n,
{
    if n < 10 {
        out.append(digit_str(n));
    } else {
        push_decimal_u64(out, n / 10);
        out.append(digit_str(n % 10));
        proof {
            assert(final(out)@ =~= old(out)@ + decimal_nat(n as nat));
        }
    }
}

/// Appends the decimal form of `n` to `out`.
pub fn push_decimal_i64(out: &mut String, n: i64)
    ensures
        final(out)@ == old(out)@ + decimal(n as int),
{
    proof {
        reveal_strlit("-");
    }
    if n < 0 {
        out.append("-");
        let m: u64 = if n == i64::MIN {
            0x8000_0000_0000_0000u64
        } else {
            (-n) as u64
        };
        push_decimal_u64(out, m);
        proof {
            assert("-"@ =~= seq!['-']);
            assert(final(out)@ =~= old(out)@ + decimal(n as int));
        }
    } else {
        push_decimal_u64(out, n as u64);
    }
}

/// The characters of a string, in order.
pub fn chars_of(s: &str) -> (v: Vec<char>)
    ensures
        v@ == s@,
{
    broadcast use vstd::string::axiom_spec_iter;

    let mut v: Vec<char> = Vec::new();
    for c in it: s.chars()
        invariant
            v@ == it.seq().take(it.index() as int),
            it.seq() == s@,
    {
        v.push(c);
        proof {
            assert(v@ =~= it.seq().take(it.index() + 1));
        }
    }
    proof {
        assert(v@ =~= s@);
    }
    v
}

/// `String::push`: appends one character.
#[verifier::external_body]
fn string_push(s: &mut String, c: char)
    ensures
        final(s)@ == old(s)@.push(c),
{
    s.push(c)
}

/// The string of the given characters.
pub fn string_of(chars: &[char]) -> (s: String)
    ensures
        s@ == chars@,
{
    let mut s = String::new();
    let mut i: usize = 0;
    while i < chars.len()
        invariant
            i <= chars.len(),
            s@ == chars@.take(i as int),
        decreases chars.len() - i,
    {
        string_push(&mut s, chars[i]);
        proof {
            assert(s@ =~= chars@.take(i + 1));
        }
        i += 1;
    }
    proof {
        assert(chars@.take(chars.len() as int) =~= chars@);
    }
    s
}

/// The pieces of the text between line feeds (one piece more than there
/// are line feeds).
pub open spec fn split_nl(t: Seq<char>) -> Seq<Seq<char>>
    decreases t.len(),
{
    if t.len() == 0 {
        seq![seq![]]
    } else {
        let r = split_nl(t.drop_last());
        if t.last() == '\n' {
            r.push(seq![])
        } else {
            r.update(r.len() - 1, r.last().push(t.last()))
        }
    }
}

/// A line without the carriage return that ends it, if any.
pub open spec fn strip_cr(l: Seq<char>) -> Seq<char> {
    if l.len() > 0 && l.last() == '\r' {
        l.drop_last()
    } else {
        l
    }
}

/// The lines of a text, as `str::lines` gives them: the pieces between line
/// feeds, without a carriage return before a line feed, and without an empty
/// piece at the end.
pub open spec fn lines(t: Seq<char>) -> Seq<Seq<char>> {
    let r = split_nl(t);
    let body = r.drop_last().map_values(|l: Seq<char>| strip_cr(l));
    if r.last().len() == 0 {
        body
    } else {
        body.push(r.last())
    }
}

proof fn lemma_split_nl_nonempty(t: Seq<char>)
    ensures
        split_nl(t).len() >= 1,
    decreases t.len(),
{
    if t.len() > 0 {
        lemma_split_nl_nonempty(t.drop_last());
    }
}

/// The lines of a text of characters.
pub fn lines_of(t: &Vec<char>) -> (ls: Vec<Vec<char>>)
    ensures
        ls@.map_values(|l: Vec<char>| l@) == lines(t@),
{
    let mut done: Vec<Vec<char>> = Vec::new();
    let mut cur: Vec<char> = Vec::new();
    let mut i: usize = 0;
    proof {
        assert(t@.take(0) =~= Seq::<char>::empty());
        assert(done@.map_values(|l: Vec<char>| l@) =~= split_nl(t@.take(0)).drop_last().map_values(
            |l: Seq<char>| strip_cr(l),
        ));
    }
    while i < t.len()
        invariant
            i <= t.len(),
            split_nl(t@.take(i as int)).len() >= 1,
            done@.map_values(|l: Vec<char>| l@) == split_nl(t@.take(i as int)).drop_last().map_values(
                |l: Seq<char>| strip_cr(l),
            ),
            cur@ == split_nl(t@.take(i as int)).last(),
        decreases t.len() - i,
    {
        let c = t[i];
        let ghost pre = t@.take(i as int);
        proof {
            assert(t@.take(i + 1).drop_last() =~= pre);
            assert(t@.take(i + 1).last() == c);
            lemma_split_nl_nonempty(pre);
        }
        if c == '\n' {
            let ghost cur_view = cur@;
            let mut line = cur;
            let n = line.len();
            if n > 0 && line[n - 1] == '\r' {
                line.pop();
                proof {
                    assert(line@ =~= cur_view.drop_last());
                }
            }
            proof {
                assert(line@ == strip_cr(cur_view));
            }
            let ghost before = done@;
            done.push(line);
            cur = Vec::new();
            proof {
                let r = split_nl(pre);
                assert(split_nl(t@.take(i + 1)) == r.push(seq![]));
                assert(split_nl(t@.take(i + 1)).drop_last() =~= r);
                assert(r =~= r.drop_last().push(r.last()));
                assert(done@.map_values(|l: Vec<char>| l@) =~= before.map_values(|l: Vec<char>| l@).push(
                    strip_cr(cur_view),
                ));
                assert(done@.map_values(|l: Vec<char>| l@) =~= r.map_values(|l: Seq<char>| strip_cr(l)));
            }
        } else {
            cur.push(c);
            proof {
                let r = split_nl(pre);
                assert(split_nl(t@.take(i + 1)) == r.update(r.len() - 1, r.last().push(c)));
                assert(split_nl(t@.take(i + 1)).drop_last() =~= r.drop_last());
            }
        }
        i += 1;
    }
    proof {
        assert(t@.take(t.len() as int) =~= t@);
    }
    if cur.len() > 0 {
        let ghost before = done@;
        done.push(cur);
        proof {
            assert(done@.map_values(|l: Vec<char>| l@) =~= before.map_values(|l: Vec<char>| l@).push(
                split_nl(t@).last(),
            ));
        }
    }
    done
}

/// ASCII white space, as `split_ascii_whitespace` goes by.
pub open spec fn is_ascii_ws(c: char) -> bool {
    c == ' ' || c == '\t' || c == '\n' || c == '\x0C' || c == '\r'
}

/// The fields of a line: the longest runs without ASCII white space.
pub open spec fn fields(l: Seq<char>) -> Seq<Seq<char>>
    decreases l.len(),
{
    if l.len() == 0 {
        seq![]
    } else {
        let f = fields(l.drop_last());
        let c = l.last();
        if is_ascii_ws(c) {
            f
        } else if l.len() >= 2 && !is_ascii_ws(l[l.len() - 2]) {
            f.update(f.len() - 1, f.last().push(c))
        } else {
            f.push(seq![c])
        }
    }
}

proof fn lemma_fields_last(l: Seq<char>)
    requires
        l.len() > 0,
        !is_ascii_ws(l.last()),
    ensures
        fields(l).len() >= 1,
    decreases l.len(),
{
    if l.len() >= 2 && !is_ascii_ws(l[l.len() - 2]) {
        assert(l.drop_last().last() == l[l.len() - 2]);
        lemma_fields_last(l.drop_last());
    }
}

/// The fields of a line.
pub fn fields_of(l: &Vec<char>) -> (fs: Vec<Vec<char>>)
    ensures
        fs@.map_values(|f: Vec<char>| f@) == fields(l@),
{
    let mut fs: Vec<Vec<char>> = Vec::new();
    let mut cur: Vec<char> = Vec::new();
    let mut in_field = false;
    let mut i: usize = 0;
    proof {
        assert(l@.take(0) =~= Seq::<char>::empty());
        assert(fs@.map_values(|f: Vec<char>| f@) =~= fields(l@.take(0)));
    }
    while i < l.len()
        invariant
            i <= l.len(),
            in_field == (i > 0 && !is_ascii_ws(l@[i - 1])),
            !in_field ==> fs@.map_values(|f: Vec<char>| f@) == fields(l@.take(i as int)),
            in_field ==> fields(l@.take(i as int)).len() >= 1 && fs@.map_values(|f: Vec<char>| f@).push(cur@)
                == fields(l@.take(i as int)),
        decreases l.len() - i,
    {
        let c = l[i];
        let ghost pre = l@.take(i as int);
        let ghost fv = fs@.map_values(|f: Vec<char>| f@);
        proof {
            assert(l@.take(i + 1).drop_last() =~= pre);
            assert(l@.take(i + 1).last() == c);
            if i > 0 {
                assert(l@.take(i + 1)[i - 1] == l@[i - 1]);
            }
        }
        let ws = c == ' ' || c == '\t' || c == '\n' || c == '\x0C' || c == '\r';
        if ws {
            if in_field {
                fs.push(cur);
                cur = Vec::new();
                proof {
                    assert(fs@.map_values(|f: Vec<char>| f@) =~= fv.push(old_cur_view(fields(pre))));
                }
            }
            in_field = false;
        } else {
            if in_field {
                cur.push(c);
                proof {
                    let f = fields(pre);
                    assert(fields(l@.take(i + 1)) == f.update(f.len() - 1, f.last().push(c)));
                    assert(fv.push(cur@) =~= fields(l@.take(i + 1)));
                }
            } else {
                cur = Vec::new();
                cur.push(c);
                proof {
                    assert(fv.push(cur@) =~= fields(l@.take(i + 1)));
                }
            }
            in_field = true;
        }
        i += 1;
    }
    proof {
        assert(l@.take(l.len() as int) =~= l@);
    }
    if in_field {
        fs.push(cur);
        proof {
            assert(fs@.map_values(|f: Vec<char>| f@) =~= fields(l@));
        }
    }
    fs
}

/// The last field of a list of fields.
pub open spec fn old_cur_view(f: Seq<Seq<char>>) -> Seq<char> {
    f.last()
}

/// The position of the first `c` in `f`, or the length of `f` without one.
pub open spec fn first_pos(f: Seq<char>, c: char) -> int {
    if exists|i: int| 0 <= i < f.len() && f[i] == c {
        choose|i: int| 0 <= i < f.len() && f[i] == c && forall|j: int| 0 <= j < i ==> f[j] != c
    } else {
        f.len() as int
    }
}

/// A field `key=value` split at its first `=`; the value ends at a second
/// `=`, if any. No `=`, no pair.
pub open spec fn key_value(f: Seq<char>) -> Option<(Seq<char>, Seq<char>)> {
    let p = first_pos(f, '=');
    if p == f.len() {
        None
    } else {
        let rest = f.skip(p + 1);
        Some((f.take(p), rest.take(first_pos(rest, '='))))
    }
}

/// The position of the first `c` in `f` from `from` on, or the length.
fn find_char(f: &[char], c: char, from: usize) -> (r: usize)
    requires
        from <= f@.len(),
    ensures
        r == from + first_pos(f@.skip(from as int), c),
        from <= r <= f@.len(),
{
    let ghost g = f@.skip(from as int);
    let mut i: usize = from;
    while i < f.len() && f[i] != c
        invariant
            from <= i <= f@.len(),
            g == f@.skip(from as int),
            forall|j: int| 0 <= j < i - from ==> g[j] != c,
        decreases f@.len() - i,
    {
        i += 1;
    }
    proof {
        if i < f@.len() {
            assert(g[i - from] == c);
            let k = choose|k: int| 0 <= k < g.len() && g[k] == c && forall|j: int| 0 <= j < k ==> g[j] != c;
            if k < i - from {
                assert(g[k] != c);
            }
            if k > i - from {
                assert(g[i - from] != c);
            }
        } else {
            assert(!exists|k: int| 0 <= k < g.len() && g[k] == c);
        }
    }
    i
}

/// Splits a field `key=value` as `key_value` says.
#[verifier::rlimit(40)]
#[verifier::spinoff_prover]
pub fn split_key_value(f: &[char]) -> (r: Option<(Vec<char>, Vec<char>)>)
    ensures
        match r {
            Some((k, v)) => key_value(f@) == Some((k@, v@)),
            None => key_value(f@) is None,
        },
{
    let p = find_char(f, '=', 0);
    proof {
        assert(f@.skip(0) =~= f@);
    }
    if p == f.len() {
        return None;
    }
    let q = find_char(f, '=', p + 1);
    let mut key: Vec<char> = Vec::new();
    let mut i: usize = 0;
    while i < p
        invariant
            i <= p < f@.len(),
            key@ == f@.take(i as int),
        decreases p - i,
    {
        key.push(f[i]);
        proof {
            assert(key@ =~= f@.take(i + 1));
        }
        i += 1;
    }
    let mut value: Vec<char> = Vec::new();
    let mut j: usize = p + 1;
    while j < q
        invariant
            p + 1 <= j <= q <= f@.len(),
            value@ == f@.subrange(p + 1, j as int),
        decreases q - j,
    {
        value.push(f[j]);
        proof {
            assert(value@ =~= f@.subrange(p + 1, j + 1));
        }
        j += 1;
    }
    proof {
        let rest = f@.skip(p + 1);
        assert(value@ =~= rest.take(first_pos(rest, '=')));
    }
    Some((key, value))
}

/// A decimal digit.
pub open spec fn is_digit(c: char) -> bool {
    '0' as u32 <= c as u32 <= '9' as u32
}

/// Only decimal digits.
pub open spec fn all_digits(s: Seq<char>) -> bool {
    forall|i: int| 0 <= i < s.len() ==> is_digit(#[trigger] s[i])
}

/// The value of decimal digits.
pub open spec fn digits_value(s: Seq<char>) -> int
    decreases s.len(),
{
    if s.len() == 0 {
        0
    } else {
        digits_value(s.drop_last()) * 10 + (s.last() as u32 - '0' as u32)
    }
}

/// An `i32` as `str::parse` reads it: an optional sign and at least one
/// digit, within range.
pub open spec fn parse_i32(s: Seq<char>) -> Option<i32> {
    if s.len() > 0 && (s[0] == '-' || s[0] == '+') {
        let d = s.skip(1);
        let v = if s[0] == '-' {
            -digits_value(d)
        } else {
            digits_value(d)
        };
        if d.len() > 0 && all_digits(d) && i32::MIN <= v <= i32::MAX {
            Some(v as i32)
        } else {
            None
        }
    } else if s.len() > 0 && all_digits(s) && digits_value(s) <= i32::MAX {
        Some(digits_value(s) as i32)
    } else {
        None
    }
}

proof fn lemma_digits_grow(s: Seq<char>, k: int)
    requires
        all_digits(s),
        0 <= k <= s.len(),
    ensures
        digits_value(s.take(k)) <= digits_value(s),
        0 <= digits_value(s.take(k)),
    decreases s.len() - k,
{
    if k < s.len() {
        lemma_digits_grow(s, k + 1);
        assert(s.take(k + 1).drop_last() =~= s.take(k));
        assert(is_digit(s.take(k + 1).last()));
    } else {
        assert(s.take(k) =~= s);
        lemma_digits_nonneg(s);
    }
}

proof fn lemma_digits_nonneg(s: Seq<char>)
    requires
        all_digits(s),
    ensures
        0 <= digits_value(s),
    decreases s.len(),
{
    if s.len() > 0 {
        assert(is_digit(s.last()));
        assert(all_digits(s.drop_last())) by {
            assert forall|i: int| 0 <= i < s.drop_last().len() implies is_digit(#[trigger] s.drop_last()[i]) by {
                assert(s.drop_last()[i] == s[i]);
            }
        }
        lemma_digits_nonneg(s.drop_last());
    }
}

/// Reads an `i32` as `str::parse` does, or nothing.
pub fn parse_i32_chars(s: &[char]) -> (r: Option<i32>)
    ensures
        r == parse_i32(s@),
{
    if s.len() == 0 {
        return None;
    }
    let neg = s[0] == '-';
    let start: usize = if s[0] == '-' || s[0] == '+' {
        1
    } else {
        0
    };
    if start == s.len() {
        return None;
    }
    let ghost d = s@.skip(start as int);
    let mut v: i64 = 0;
    let mut i: usize = start;
    while i < s.len()
        invariant
            start <= i <= s@.len(),
            start < s@.len(),
            start == (if s@[0] == '-' || s@[0] == '+' {
                1usize
            } else {
                0usize
            }),
            neg == (s@[0] == '-'),
            d == s@.skip(start as int),
            all_digits(d.take(i - start)),
            v == digits_value(d.take(i - start)),
            0 <= v <= 0x8000_0000,
        decreases s@.len() - i,
    {
        let c = s[i];
        proof {
            assert(d.take(i - start + 1).drop_last() =~= d.take(i - start));
            assert(d.take(i - start + 1).last() == c);
        }
        let cu = c as u32;
        if !(48 <= cu && cu <= 57) {
            proof {
                assert(d[i - start] == c);
                assert(!is_digit(d[i - start]));
                assert(!all_digits(d));
                if start == 0 {
                    assert(d =~= s@);
                    assert(!all_digits(s@));
                } else {
                    assert(s@[0] == '-' || s@[0] == '+');
                }
                assert(parse_i32(s@) is None);
            }
            return None;
        }
        let digit: i64 = (cu - 48) as i64;
        v = v * 10 + digit;
        proof {
            assert(all_digits(d.take(i - start + 1))) by {
                assert forall|j: int| 0 <= j < d.take(i - start + 1).len() implies is_digit(#[trigger] d.take(i - start + 1)[j]) by {
                    if j < i - start {
                        assert(d.take(i - start + 1)[j] == d.take(i - start)[j]);
                    }
                }
            }
        }
        if v > 0x8000_0000 {
            proof {
                if all_digits(d) {
                    lemma_digits_grow(d, i - start + 1);
                }
                if start == 0 {
                    assert(d =~= s@);
                }
            }
            return None;
        }
        i += 1;
    }
    proof {
        assert(d.take(i - start) =~= d);
        if start == 0 {
            assert(d =~= s@);
        }
    }
    let r: i64 = if neg {
        -v
    } else {
        v
    };
    if r < -0x8000_0000 || r > 0x7fff_ffff {
        return None;
    }
    Some(r as i32)
}


/// A `u32` as `str::parse` reads it: an optional `+` and at least one digit,
/// within range.
pub open spec fn parse_u32(s: Seq<char>) -> Option<u32> {
    let d = if s.len() > 0 && s[0] == '+' {
        s.skip(1)
    } else {
        s
    };
    if d.len() > 0 && all_digits(d) && digits_value(d) <= u32::MAX {
        Some(digits_value(d) as u32)
    } else {
        None
    }
}

/// Reads a `u32` as `str::parse` does, or nothing.
pub fn parse_u32_chars(s: &[char]) -> (r: Option<u32>)
    ensures
        r == parse_u32(s@),
{
    let start: usize = if s.len() > 0 && s[0] == '+' {
        1
    } else {
        0
    };
    let ghost d = s@.skip(start as int);
    proof {
        if start == 0 {
            assert(d =~= s@);
        }
    }
    if start == s.len() {
        return None;
    }
    let mut v: u64 = 0;
    let mut i: usize = start;
    while i < s.len()
        invariant
            start <= i <= s@.len(),
            start < s@.len(),
            d == s@.skip(start as int),
            d == (if s@.len() > 0 && s@[0] == '+' {
                s@.skip(1)
            } else {
                s@
            }),
            all_digits(d.take(i - start)),
            v == digits_value(d.take(i - start)),
            v <= 0xffff_ffff,
        decreases s@.len() - i,
    {
        let c = s[i];
        proof {
            assert(d.take(i - start + 1).drop_last() =~= d.take(i - start));
            assert(d.take(i - start + 1).last() == c);
        }
        let cu = c as u32;
        if !(48 <= cu && cu <= 57) {
            proof {
                assert(d[i - start] == c);
                assert(!is_digit(d[i - start]));
            }
            return None;
        }
        let digit: u64 = (cu - 48) as u64;
        v = v * 10 + digit;
        proof {
            assert(all_digits(d.take(i - start + 1))) by {
                assert forall|j: int| 0 <= j < d.take(i - start + 1).len() implies is_digit(#[trigger] d.take(i - start + 1)[j]) by {
                    if j < i - start {
                        assert(d.take(i - start + 1)[j] == d.take(i - start)[j]);
                    }
                }
            }
        }
        if v > 0xffff_ffff {
            proof {
                if all_digits(d) {
                    lemma_digits_grow(d, i - start + 1);
                }
            }
            return None;
        }
        i += 1;
    }
    proof {
        assert(d.take(i - start) =~= d);
    }
    Some(v as u32)
}

} // verus!
