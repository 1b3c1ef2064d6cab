//! Small string helpers shared by the renderers.

use vstd::prelude::*;
use vstd::string::StrSliceExecFns;

verus! {

/// Appends one character to a `String` (`String::push`).
#[verifier::external_body]
pub fn push_char(s: &mut String, c: char)
    ensures
        final(s)@ == old(s)@.push(c),
{
    s.push(c);
}

/// Whether the text ends with a line feed.
pub fn ends_with_newline(s: &String) -> (r: bool)
    ensures
        r == (s@.len() > 0 && s@.last() == '\n'),
{
    let t = s.as_str();
    let n = t.unicode_len();
    n > 0 && t.get_char(n - 1) == '\n'
}

} // verus!

verus! {

/// Appends `n` copies of `c`.
pub open spec fn repeat_spec(c: char, n: nat) -> Seq<char>
    decreases n,
{
    if n == 0 { Seq::empty() } else { repeat_spec(c, (n - 1) as nat).push(c) }
}

/// The decimal digit for `d < 10`.
pub open spec fn digit_char(d: nat) -> char {
    if d == 0 { '0' } else if d == 1 { '1' } else if d == 2 { '2' } else if d == 3 { '3' }
    else if d == 4 { '4' } else if d == 5 { '5' } else if d == 6 { '6' } else if d == 7 { '7' }
    else if d == 8 { '8' } else { '9' }
}

/// The decimal notation of `n`, without sign or leading zeros.
pub open spec fn decimal_spec(n: nat) -> Seq<char>
    decreases n,
{
    if n < 10 { seq![digit_char(n)] } else { decimal_spec(n / 10).push(digit_char(n % 10)) }
}

/// Appends `n` copies of `c` to `buf`.
pub fn push_repeated(buf: &mut String, c: char, n: usize)
    ensures
        final(buf)@ == old(buf)@ + repeat_spec(c, n as nat),
{
    let ghost start = buf@;
    let mut i: usize = 0;
    while i < n
        invariant
            i <= n,
            buf@ == start + repeat_spec(c, i as nat),
        decreases n - i,
    {
        push_char(buf, c);
        i = i + 1;
        assert(buf@ =~= start + repeat_spec(c, i as nat));
    }
}

fn digit_of(d: u64) -> (c: char)
    requires
        d < 10,
    ensures
        c == digit_char(d as nat),
{
    if d == 0 { '0' } else if d == 1 { '1' } else if d == 2 { '2' } else if d == 3 { '3' }
    else if d == 4 { '4' } else if d == 5 { '5' } else if d == 6 { '6' } else if d == 7 { '7' }
    else if d == 8 { '8' } else { '9' }
}

/// Appends the decimal notation of `n` to `buf`.
pub fn push_decimal(buf: &mut String, n: u64)
    ensures
        final(buf)@ == old(buf)@ + decimal_spec(n as nat),
    decreases n,
{
    if n >= 10 {
        push_decimal(buf, n / 10);
    }
    let d = digit_of(n % 10);
    push_char(buf, d);
    proof {
        if n >= 10 {
            assert(old(buf)@ + decimal_spec(n as nat) =~= old(buf)@ + decimal_spec((n / 10) as nat) + seq![d]);
        } else {
            assert(old(buf)@ + decimal_spec(n as nat) =~= old(buf)@ + seq![d]);
        }
    }
}

/// The Unicode `White_Space` property, which `char::is_whitespace` and
/// `str::trim` use.
pub open spec fn is_white_space(c: char) -> bool {
    let u = c as u32;
    (0x9 <= u && u <= 0xd) || u == 0x20 || u == 0x85 || u == 0xa0 || u == 0x1680
        || (0x2000 <= u && u <= 0x200a) || u == 0x2028 || u == 0x2029 || u == 0x202f
        || u == 0x205f || u == 0x3000
}

/// `s` without its leading white space.
pub open spec fn trim_start_spec(s: Seq<char>) -> Seq<char>
    decreases s.len(),
{
    if s.len() > 0 && is_white_space(s[0]) { trim_start_spec(s.drop_first()) } else { s }
}

/// `s` without its trailing white space.
pub open spec fn trim_end_spec(s: Seq<char>) -> Seq<char>
    decreases s.len(),
{
    if s.len() > 0 && is_white_space(s.last()) { trim_end_spec(s.drop_last()) } else { s }
}

/// `s` without leading and trailing white space (`str::trim`).
pub open spec fn trim_spec(s: Seq<char>) -> Seq<char> {
    trim_end_spec(trim_start_spec(s))
}

fn white_space(c: char) -> (r: bool)
    ensures
        r == is_white_space(c),
{
    let u = c as u32;
    (0x9 <= u && u <= 0xd) || u == 0x20 || u == 0x85 || u == 0xa0 || u == 0x1680
        || (0x2000 <= u && u <= 0x200a) || u == 0x2028 || u == 0x2029 || u == 0x202f
        || u == 0x205f || u == 0x3000
}

/// The characters of `s`, in order.
pub fn chars_of(s: &str) -> (v: Vec<char>)
    ensures
        v@ == s@,
{
    let mut v: Vec<char> = Vec::new();
    for ch in it: s.chars()
        invariant
            it.seq() == s@,
            v@ == s@.take(it.index() as int),
    {
        let ghost i = it.index() as int;
        v.push(ch);
        assert(v@ =~= s@.take(i + 1));
    }
    assert(s@.take(s@.len() as int) =~= s@);
    v
}

/// `s` without leading and trailing white space.
pub fn trim(s: &str) -> (r: String)
    ensures
        r@ == trim_spec(s@),
{
    let cs = chars_of(s);
    let n = cs.len();
    let mut i: usize = 0;
    assert(s@.skip(0) =~= s@);
    while i < n && white_space(cs[i])
        invariant
            i <= n,
            n == cs@.len(),
            cs@ == s@,
            trim_start_spec(s@) == trim_start_spec(s@.skip(i as int)),
        decreases n - i,
    {
        assert(s@.skip(i as int).drop_first() =~= s@.skip(i + 1));
        i = i + 1;
    }
    let mut j: usize = n;
    assert(s@.skip(i as int) =~= s@.subrange(i as int, j as int));
    while j > i && white_space(cs[j - 1])
        invariant
            i <= j <= n,
            n == cs@.len(),
            cs@ == s@,
            trim_end_spec(s@.skip(i as int)) == trim_end_spec(s@.subrange(i as int, j as int)),
        decreases j,
    {
        assert(s@.subrange(i as int, j as int).drop_last() =~= s@.subrange(i as int, j - 1));
        j = j - 1;
    }
    assert(trim_start_spec(s@) == s@.skip(i as int)) by {
        if i < n {
            let t = s@.skip(i as int);
            assert(t[0] == s@[i as int]);
        } else {
            assert(s@.skip(i as int).len() == 0);
        }
    }
    assert(trim_end_spec(s@.subrange(i as int, j as int)) == s@.subrange(i as int, j as int)) by {
        if j > i {
            assert(s@.subrange(i as int, j as int).last() == s@[j - 1]);
        }
    }
    let mut r = String::new();
    let mut k: usize = i;
    while k < j
        invariant
            i <= k <= j <= n,
            n == cs@.len(),
            cs@ == s@,
            r@ == s@.subrange(i as int, k as int),
        decreases j - k,
    {
        push_char(&mut r, cs[k]);
        k = k + 1;
        assert(r@ =~= s@.subrange(i as int, k as int));
    }
    r
}

} // verus!

verus! {

/// The text that `String::from_utf8_lossy` makes of `bytes`.
pub uninterp spec fn utf8_lossy(bytes: Seq<u8>) -> Seq<char>;

/// Decodes UTF-8, replacing what is not UTF-8 (`String::from_utf8_lossy`).
/// Claimed: the result is [`utf8_lossy`] of the bytes, and for valid UTF-8
/// it is the decoded text, as the documentation of the function says.
#[verifier::external_body]
pub fn string_from_utf8_lossy(bytes: &[u8]) -> (s: String)
    ensures
        s@ == utf8_lossy(bytes@),
        vstd::utf8::valid_utf8(bytes@) ==> s@ == vstd::utf8::decode_utf8(bytes@),
{
    String::from_utf8_lossy(bytes).into_owned()
}

} // verus!

verus! {

/// The lower-case hexadecimal digit for `d < 16`.
pub open spec fn hex_char(d: nat) -> char {
    if d < 10 { digit_char(d) } else if d == 10 { 'a' } else if d == 11 { 'b' } else if d == 12 { 'c' }
    else if d == 13 { 'd' } else if d == 14 { 'e' } else { 'f' }
}

/// One character as it stands inside a JSON string: quotes, backslashes
/// and control characters escaped.
pub open spec fn json_char_spec(c: char) -> Seq<char> {
    if c == '"' {
        seq!['\\', '"']
    } else if c == '\\' {
        seq!['\\', '\\']
    } else if c == '\n' {
        seq!['\\', 'n']
    } else if c == '\r' {
        seq!['\\', 'r']
    } else if c == '\t' {
        seq!['\\', 't']
    } else if (c as u32) < 0x20 {
        seq!['\\', 'u', '0', '0', hex_char((c as u32 / 16) as nat), hex_char((c as u32 % 16) as nat)]
    } else {
        seq![c]
    }
}

/// `s` escaped for a JSON string.
pub open spec fn json_escape_spec(s: Seq<char>) -> Seq<char>
    decreases s.len(),
{
    if s.len() == 0 { Seq::empty() } else { json_escape_spec(s.drop_last()) + json_char_spec(s.last()) }
}

/// `s` as a JSON string literal.
pub open spec fn json_string_spec(s: Seq<char>) -> Seq<char> {
    seq!['"'] + json_escape_spec(s) + seq!['"']
}

fn hex_of(d: u32) -> (c: char)
    requires
        d < 16,
    ensures
        c == hex_char(d as nat),
{
    if d < 10 { digit_of(d as u64) } else if d == 10 { 'a' } else if d == 11 { 'b' } else if d == 12 { 'c' }
    else if d == 13 { 'd' } else if d == 14 { 'e' } else { 'f' }
}

/// Appends `s` as a JSON string literal to `buf`.
pub fn push_json_string(buf: &mut String, s: &str)
    ensures
        final(buf)@ == old(buf)@ + json_string_spec(s@),
{
    let ghost start = buf@;
    push_char(buf, '"');
    for ch in it: s.chars()
        invariant
            it.seq() == s@,
            buf@ == start + seq!['"'] + json_escape_spec(s@.take(it.index() as int)),
    {
        let ghost i = it.index() as int;
        let ghost b = buf@;
        assert(s@.take(i + 1).drop_last() =~= s@.take(i));
        let u = ch as u32;
        if ch == '"' || ch == '\\' {
            push_char(buf, '\\');
            push_char(buf, ch);
        } else if ch == '\n' {
            push_char(buf, '\\');
            push_char(buf, 'n');
        } else if ch == '\r' {
            push_char(buf, '\\');
            push_char(buf, 'r');
        } else if ch == '\t' {
            push_char(buf, '\\');
            push_char(buf, 't');
        } else if u < 0x20 {
            push_char(buf, '\\');
            push_char(buf, 'u');
            push_char(buf, '0');
            push_char(buf, '0');
            push_char(buf, hex_of(u / 16));
            push_char(buf, hex_of(u % 16));
        } else {
            push_char(buf, ch);
        }
        assert(buf@ =~= b + json_char_spec(ch));
        assert(buf@ =~= start + seq!['"'] + json_escape_spec(s@.take(i + 1)));
    }
    assert(s@.take(s@.len() as int) =~= s@);
    push_char(buf, '"');
    assert(buf@ =~= start + json_string_spec(s@));
}

/// The last component of a `/`-separated path: what follows the last `/`
/// once trailing `/`s are dropped.
pub open spec fn file_name_spec(path: Seq<char>) -> Seq<char>
    decreases path.len(),
{
    if path.len() > 0 && path.last() == '/' {
        file_name_spec(path.drop_last())
    } else {
        last_component(path)
    }
}

/// What follows the last `/` of `path`, or all of it.
pub open spec fn last_component(path: Seq<char>) -> Seq<char>
    decreases path.len(),
{
    if path.len() == 0 || path.last() == '/' {
        Seq::empty()
    } else {
        last_component(path.drop_last()).push(path.last())
    }
}

/// The last component of a `/`-separated path (see [`file_name_spec`]).
pub fn file_name(path: &str) -> (r: String)
    ensures
        r@ == file_name_spec(path@),
{
    let cs = chars_of(path);
    let mut end: usize = cs.len();
    assert(path@.take(end as int) =~= path@);
    while end > 0 && cs[end - 1] == '/'
        invariant
            end <= cs@.len(),
            cs@ == path@,
            file_name_spec(path@) == file_name_spec(path@.take(end as int)),
        decreases end,
    {
        assert(path@.take(end as int).drop_last() =~= path@.take(end - 1));
        end = end - 1;
    }
    let mut start: usize = end;
    while start > 0 && cs[start - 1] != '/'
        invariant
            start <= end <= cs@.len(),
            cs@ == path@,
            last_component(path@.take(end as int)) == last_component(path@.take(start as int)) + path@.subrange(start as int, end as int),
        decreases start,
    {
        assert(path@.take(start as int).drop_last() =~= path@.take(start - 1));
        assert(path@.subrange(start - 1, end as int) =~= seq![path@[start - 1]] + path@.subrange(start as int, end as int));
        assert(last_component(path@.take(start as int)) == last_component(path@.take(start - 1)).push(path@[start - 1]));
        start = start - 1;
    }
    assert(last_component(path@.take(start as int)) =~= Seq::<char>::empty());
    assert(end == 0 || path@.take(end as int).last() != '/');
    let mut r = String::new();
    let mut k: usize = start;
    while k < end
        invariant
            start <= k <= end <= cs@.len(),
            cs@ == path@,
            r@ == path@.subrange(start as int, k as int),
        decreases end - k,
    {
        push_char(&mut r, cs[k]);
        k = k + 1;
        assert(r@ =~= path@.subrange(start as int, k as int));
    }
    r
}

} // verus!

verus! {

/// The base64 digit for `v < 64` (standard alphabet).
pub open spec fn b64_digit(v: nat) -> char {
    if v < 26 {
        (65 + v) as char
    } else if v < 52 {
        (97 + (v - 26)) as char
    } else if v < 62 {
        (48 + (v - 52)) as char
    } else if v == 62 {
        '+'
    } else {
        '/'
    }
}

/// Standard base64 with `=` padding: each group of three bytes becomes
/// four digits; a last group of one or two bytes becomes two or three
/// digits and padding.
pub open spec fn base64_spec(b: Seq<u8>) -> Seq<char>
    decreases b.len(),
{
    if b.len() == 0 {
        Seq::empty()
    } else if b.len() == 1 {
        seq![b64_digit((b[0] / 4) as nat), b64_digit(((b[0] % 4) * 16) as nat), '=', '=']
    } else if b.len() == 2 {
        seq![
            b64_digit((b[0] / 4) as nat),
            b64_digit(((b[0] % 4) * 16 + b[1] / 16) as nat),
            b64_digit(((b[1] % 16) * 4) as nat),
            '=',
        ]
    } else {
        seq![
            b64_digit((b[0] / 4) as nat),
            b64_digit(((b[0] % 4) * 16 + b[1] / 16) as nat),
            b64_digit(((b[1] % 16) * 4 + b[2] / 64) as nat),
            b64_digit((b[2] % 64) as nat),
        ] + base64_spec(b.skip(3))
    }
}

fn b64_of(v: u32) -> (c: char)
    requires
        v < 64,
    ensures
        c == b64_digit(v as nat),
{
    if v < 26 {
        (65 + v) as u8 as char
    } else if v < 52 {
        (97 + (v - 26)) as u8 as char
    } else if v < 62 {
        (48 + (v - 52)) as u8 as char
    } else if v == 62 {
        '+'
    } else {
        '/'
    }
}

/// The bytes `b` in standard base64 (see [`base64_spec`]).
pub fn base64_encode(b: &[u8]) -> (r: String)
    ensures
        r@ == base64_spec(b@),
{
    let mut r = String::new();
    let n = b.len();
    let mut i: usize = 0;
    assert(b@.skip(0) =~= b@);
    while n - i >= 3
        invariant
            i <= n,
            n == b@.len(),
            r@ + base64_spec(b@.skip(i as int)) == base64_spec(b@),
        decreases n - i,
    {
        let x = b[i] as u32;
        let y = b[i + 1] as u32;
        let z = b[i + 2] as u32;
        let ghost rest = b@.skip(i as int);
        assert(rest[0] == b[i as int] && rest[1] == b[i + 1] && rest[2] == b[i + 2]);
        assert(rest.skip(3) =~= b@.skip(i + 3));
        let ghost r0 = r@;
        push_char(&mut r, b64_of(x / 4));
        push_char(&mut r, b64_of((x % 4) * 16 + y / 16));
        push_char(&mut r, b64_of((y % 16) * 4 + z / 64));
        push_char(&mut r, b64_of(z % 64));
        assert(r@ + base64_spec(b@.skip(i + 3)) =~= r0 + base64_spec(rest));
        i = i + 3;
    }
    let ghost rest = b@.skip(i as int);
    let ghost r0 = r@;
    if n - i == 1 {
        let x = b[i] as u32;
        assert(rest[0] == b[i as int]);
        push_char(&mut r, b64_of(x / 4));
        push_char(&mut r, b64_of((x % 4) * 16));
        push_char(&mut r, '=');
        push_char(&mut r, '=');
        assert(r@ =~= r0 + base64_spec(rest));
    } else if n - i == 2 {
        let x = b[i] as u32;
        let y = b[i + 1] as u32;
        assert(rest[0] == b[i as int] && rest[1] == b[i + 1]);
        push_char(&mut r, b64_of(x / 4));
        push_char(&mut r, b64_of((x % 4) * 16 + y / 16));
        push_char(&mut r, b64_of((y % 16) * 4));
        push_char(&mut r, '=');
        assert(r@ =~= r0 + base64_spec(rest));
    } else {
        assert(rest.len() == 0);
        assert(r@ =~= r0 + base64_spec(rest));
    }
    r
}

} // verus!

verus! {

/// The value of a standard base64 digit: `A`–`Z` are 0–25, `a`–`z` 26–51,
/// `0`–`9` 52–61, `+` 62 and `/` 63.
pub open spec fn b64_value(c: char) -> nat {
    let u = c as u32;
    if 65 <= u && u <= 90 {
        (u - 65) as nat
    } else if 97 <= u && u <= 122 {
        (u - 71) as nat
    } else if 48 <= u && u <= 57 {
        (u + 4) as nat
    } else if c == '+' {
        62
    } else {
        63
    }
}

/// Whether `c` is a character of the standard base64 alphabet.
pub open spec fn is_b64_char(c: char) -> bool {
    let u = c as u32;
    (65 <= u && u <= 90) || (97 <= u && u <= 122) || (48 <= u && u <= 57) || c == '+' || c == '/'
}

/// The bytes of one group of four base64 characters, `=` marking padding.
pub open spec fn b64_group_bytes(g: Seq<char>) -> Seq<u8> {
    let a = b64_value(g[0]);
    let b = b64_value(g[1]);
    let c = b64_value(g[2]);
    let d = b64_value(g[3]);
    let x = (a * 4 + b / 16) as u8;
    let y = ((b % 16) * 16 + c / 4) as u8;
    let z = ((c % 4) * 64 + d) as u8;
    if g[2] == '=' {
        seq![x]
    } else if g[3] == '=' {
        seq![x, y]
    } else {
        seq![x, y, z]
    }
}

/// Standard base64 decoding, four characters at a time.
pub open spec fn base64_decode_spec(s: Seq<char>) -> Seq<u8>
    decreases s.len(),
{
    if s.len() < 4 {
        Seq::empty()
    } else {
        b64_group_bytes(s.take(4)) + base64_decode_spec(s.skip(4))
    }
}

/// Each digit value is written as an alphabet character that reads back as
/// that value, so distinct values get distinct characters.
pub proof fn lemma_b64_digit_reads_back(v: nat)
    requires
        v < 64,
    ensures
        is_b64_char(b64_digit(v)),
        b64_value(b64_digit(v)) == v,
        b64_digit(v) != '=',
{
}

proof fn lemma_b64_arith(x: u8, y: u8, z: u8)
    ensures
        x / 4 < 64,
        (x % 4) * 16 + y / 16 < 64,
        (y % 16) * 4 + z / 64 < 64,
        z % 64 < 64,
        (x / 4) * 4 + ((x % 4) * 16 + y / 16) / 16 == x,
        (((x % 4) * 16 + y / 16) % 16) * 16 + ((y % 16) * 4 + z / 64) / 4 == y,
        (((y % 16) * 4 + z / 64) % 4) * 64 + z % 64 == z,
        ((x % 4) * 16) % 16 == 0,
        ((y % 16) * 4) % 4 == 0,
{
    assert((x / 4) * 4 + ((x % 4) * 16 + y / 16) / 16 == x) by (bit_vector);
    assert((((x % 4) * 16 + y / 16) % 16) * 16 + ((y % 16) * 4 + z / 64) / 4 == y) by (bit_vector);
    assert((((y % 16) * 4 + z / 64) % 4) * 64 + z % 64 == z) by (bit_vector);
    assert(((x % 4) * 16) % 16 == 0) by (bit_vector);
    assert(((y % 16) * 4) % 4 == 0) by (bit_vector);
    assert((x % 4) * 16 + y / 16 < 64) by (bit_vector);
    assert((y % 16) * 4 + z / 64 < 64) by (bit_vector);
}

/// Base64 loses nothing: decoding what [`base64_spec`] writes gives back
/// the bytes, and it writes only alphabet characters and `=` padding.
pub proof fn lemma_base64_round_trip(b: Seq<u8>)
    ensures
        base64_decode_spec(base64_spec(b)) == b,
        forall|i: int| 0 <= i < base64_spec(b).len() ==> is_b64_char(#[trigger] base64_spec(b)[i]) || base64_spec(b)[i] == '=',
        base64_spec(b).len() % 4 == 0,
    decreases b.len(),
{
    if b.len() == 0 {
    } else if b.len() == 1 {
        let x = b[0];
        lemma_b64_arith(x, 0, 0);
        lemma_b64_digit_reads_back((x / 4) as nat);
        lemma_b64_digit_reads_back(((x % 4) * 16) as nat);
        let e = base64_spec(b);
        assert(e.take(4) =~= e);
        assert(e.skip(4).len() == 0);
        assert(base64_decode_spec(e.skip(4)) == Seq::<u8>::empty());
        assert(b64_group_bytes(e) =~= b);
        assert(base64_decode_spec(e) =~= b64_group_bytes(e.take(4)) + Seq::<u8>::empty());
        assert(base64_decode_spec(e) =~= b);
    } else if b.len() == 2 {
        let x = b[0];
        let y = b[1];
        lemma_b64_arith(x, y, 0);
        lemma_b64_digit_reads_back((x / 4) as nat);
        lemma_b64_digit_reads_back(((x % 4) * 16 + y / 16) as nat);
        lemma_b64_digit_reads_back(((y % 16) * 4) as nat);
        let e = base64_spec(b);
        assert(e.take(4) =~= e);
        assert(e.skip(4).len() == 0);
        assert(base64_decode_spec(e.skip(4)) == Seq::<u8>::empty());
        assert(b64_group_bytes(e) =~= b);
        assert(base64_decode_spec(e) =~= b64_group_bytes(e.take(4)) + Seq::<u8>::empty());
        assert(base64_decode_spec(e) =~= b);
    } else {
        let x = b[0];
        let y = b[1];
        let z = b[2];
        lemma_b64_arith(x, y, z);
        lemma_b64_digit_reads_back((x / 4) as nat);
        lemma_b64_digit_reads_back(((x % 4) * 16 + y / 16) as nat);
        lemma_b64_digit_reads_back(((y % 16) * 4 + z / 64) as nat);
        lemma_b64_digit_reads_back((z % 64) as nat);
        let rest = b.skip(3);
        lemma_base64_round_trip(rest);
        let g = seq![
            b64_digit((x / 4) as nat),
            b64_digit(((x % 4) * 16 + y / 16) as nat),
            b64_digit(((y % 16) * 4 + z / 64) as nat),
            b64_digit((z % 64) as nat),
        ];
        let e = base64_spec(b);
        assert(e == g + base64_spec(rest));
        assert(e.take(4) =~= g);
        assert(e.skip(4) =~= base64_spec(rest));
        assert(b64_group_bytes(g) =~= b.take(3));
        assert(b =~= b.take(3) + rest);
        assert forall|i: int| 0 <= i < e.len() implies is_b64_char(#[trigger] e[i]) || e[i] == '=' by {
            if i >= 4 {
                assert(e[i] == base64_spec(rest)[i - 4]);
            }
        }
    }
}

} // verus!

verus! {

/// The value of a hexadecimal digit character (lower or upper case).
pub open spec fn hex_value(c: char) -> nat {
    let u = c as u32;
    if 48 <= u && u <= 57 { (u - 48) as nat } else if 97 <= u && u <= 102 { (u - 87) as nat } else { (u - 55) as nat }
}

/// Reads the contents of a JSON string literal back: `\"`, `\\`, `\n`,
/// `\r`, `\t` and `\u00XX` stand for the characters they name.
pub open spec fn json_unescape(s: Seq<char>) -> Seq<char>
    decreases s.len(),
{
    if s.len() == 0 {
        s
    } else if s[0] == '\\' && s.len() >= 6 && s[1] == 'u' {
        seq![(((hex_value(s[2]) * 16 + hex_value(s[3])) * 256 + hex_value(s[4]) * 16 + hex_value(s[5])) as u32) as char]
            + json_unescape(s.skip(6))
    } else if s[0] == '\\' && s.len() >= 2 {
        seq![if s[1] == 'n' { '\n' } else if s[1] == 'r' { '\r' } else if s[1] == 't' { '\t' } else { s[1] }]
            + json_unescape(s.skip(2))
    } else {
        seq![s[0]] + json_unescape(s.skip(1))
    }
}

proof fn lemma_json_escape_concat(a: Seq<char>, b: Seq<char>)
    ensures
        json_escape_spec(a + b) == json_escape_spec(a) + json_escape_spec(b),
    decreases b.len(),
{
    if b.len() == 0 {
        assert(a + b =~= a);
        assert(json_escape_spec(a) + json_escape_spec(b) =~= json_escape_spec(a));
    } else {
        assert((a + b).drop_last() =~= a + b.drop_last());
        assert((a + b).last() == b.last());
        lemma_json_escape_concat(a, b.drop_last());
        assert(json_escape_spec(a) + json_escape_spec(b) =~= json_escape_spec(a) + json_escape_spec(b.drop_last())
            + json_char_spec(b.last()));
    }
}

proof fn lemma_hex_reads_back(d: nat)
    requires
        d < 16,
    ensures
        hex_value(hex_char(d)) == d,
        hex_char(d) != '"' && hex_char(d) != '\\',
{
}

/// JSON strings written by the library read back exactly: unescaping the
/// escaped text gives the original text, every character included; and
/// the escaped text has no bare quote, so the literal ends at its closing
/// quote.
pub proof fn lemma_json_string_reads_back(s: Seq<char>)
    ensures
        json_unescape(json_escape_spec(s)) == s,
        forall|i: int| 0 <= i < json_escape_spec(s).len() && #[trigger] json_escape_spec(s)[i] == '"' ==> i > 0
            && json_escape_spec(s)[i - 1] == '\\',
    decreases s.len(),
{
    if s.len() > 0 {
        let c = s[0];
        let rest = s.skip(1);
        assert(s =~= seq![c] + rest);
        lemma_json_escape_concat(seq![c], rest);
        assert(seq![c].drop_last() =~= Seq::<char>::empty());
        assert(json_escape_spec(Seq::<char>::empty()) == Seq::<char>::empty());
        assert(seq![c].last() == c);
        assert(json_escape_spec(seq![c]) == json_escape_spec(seq![c].drop_last()) + json_char_spec(c));
        assert(json_escape_spec(seq![c]) =~= json_char_spec(c));
        lemma_json_string_reads_back(rest);
        let x = json_char_spec(c);
        let e = x + json_escape_spec(rest);
        let u = c as u32;
        if x.len() == 6 {
            lemma_hex_reads_back((u / 16) as nat);
            lemma_hex_reads_back((u % 16) as nat);
            assert(e[0] == '\\' && e[1] == 'u' && e[2] == '0' && e[3] == '0');
            assert(e.skip(6) =~= json_escape_spec(rest));
            assert(((hex_value('0') * 16 + hex_value('0')) * 256 + hex_value(e[4]) * 16 + hex_value(e[5])) == u);
            assert(hex_value(e[4]) == u / 16 && hex_value(e[5]) == u % 16);
            assert(((hex_value(e[2]) * 16 + hex_value(e[3])) * 256 + hex_value(e[4]) * 16 + hex_value(e[5])) == u as nat);
            vstd::utf8::char_u32_cast(c, u);
        } else if x.len() == 2 {
            assert(e[0] == '\\' && e[1] != 'u');
            assert(e.skip(2) =~= json_escape_spec(rest));
        } else {
            assert(e.skip(1) =~= json_escape_spec(rest));
        }
        assert(json_unescape(e) =~= s);
        assert forall|i: int| 0 <= i < e.len() && #[trigger] e[i] == '"' implies i > 0 && e[i - 1] == '\\' by {
            if i >= x.len() {
                assert(e[i] == json_escape_spec(rest)[i - x.len()]);
                if i - x.len() > 0 {
                    assert(e[i - 1] == json_escape_spec(rest)[i - x.len() - 1]);
                } else {
                    assert(json_escape_spec(rest)[0] != '"');
                }
            } else if x.len() == 6 {
                lemma_hex_reads_back((u / 16) as nat);
                lemma_hex_reads_back((u % 16) as nat);
            }
        }
    }
}

} // verus!

verus! {

proof fn lemma_last_component(path: Seq<char>) -> (j: int)
    ensures
        0 <= j <= path.len(),
        j == 0 || path[j - 1] == '/',
        last_component(path) == path.subrange(j, path.len() as int),
        forall|i: int| j <= i < path.len() ==> path[i] != '/',
    decreases path.len(),
{
    if path.len() == 0 || path.last() == '/' {
        path.len() as int
    } else {
        let p = path.drop_last();
        let j = lemma_last_component(p);
        assert(path.subrange(j, path.len() as int) =~= p.subrange(j, p.len() as int).push(path.last()));
        assert forall|i: int| j <= i < path.len() implies path[i] != '/' by {
            if i < p.len() {
                assert(path[i] == p[i]);
            }
        }
        j
    }
}

/// The file name is the path's last component: the text between the last
/// `/` (or the start) and the trailing `/`s (or the end), holding no `/`
/// itself.
pub proof fn lemma_file_name_is_last_component(path: Seq<char>) -> (jk: (int, int))
    ensures
        0 <= jk.0 <= jk.1 <= path.len(),
        file_name_spec(path) == path.subrange(jk.0, jk.1),
        jk.0 == 0 || path[jk.0 - 1] == '/',
        jk.1 == 0 || path[jk.1 - 1] != '/',
        forall|i: int| jk.1 <= i < path.len() ==> path[i] == '/',
        forall|i: int| jk.0 <= i < jk.1 ==> path[i] != '/',
    decreases path.len(),
{
    if path.len() > 0 && path.last() == '/' {
        let p = path.drop_last();
        let (j, k) = lemma_file_name_is_last_component(p);
        assert(path.subrange(j, k) =~= p.subrange(j, k));
        assert forall|i: int| k <= i < path.len() implies path[i] == '/' by {
            if i < p.len() {
                assert(path[i] == p[i]);
            }
        }
        assert forall|i: int| j <= i < k implies path[i] != '/' by {
            assert(path[i] == p[i]);
        }
        (j, k)
    } else {
        let j = lemma_last_component(path);
        (j, path.len() as int)
    }
}

} // verus!

verus! {

/// The number that a text of decimal digits stands for.
pub open spec fn decimal_value(s: Seq<char>) -> nat
    decreases s.len(),
{
    if s.len() == 0 { 0 } else { decimal_value(s.drop_last()) * 10 + ((s.last() as u32) - 48) as nat }
}

proof fn lemma_digit(d: nat)
    requires
        d < 10,
    ensures
        ((digit_char(d) as u32) - 48) as nat == d,
        '0' <= digit_char(d) <= '9',
{
}

/// Decimal notation reads back as the number: it is made of the digits
/// `0`–`9`, stands for `n`, and starts with `0` only when `n` is 0.
pub proof fn lemma_decimal_reads_back(n: nat)
    ensures
        decimal_value(decimal_spec(n)) == n,
        decimal_spec(n).len() > 0,
        forall|i: int| 0 <= i < decimal_spec(n).len() ==> '0' <= #[trigger] decimal_spec(n)[i] <= '9',
        n > 0 ==> decimal_spec(n)[0] != '0',
    decreases n,
{
    lemma_digit(n % 10);
    if n < 10 {
        lemma_digit(n);
        assert(decimal_spec(n).drop_last() =~= Seq::<char>::empty());
        assert(decimal_value(decimal_spec(n)) == decimal_value(Seq::<char>::empty()) * 10 + ((digit_char(n) as u32) - 48) as nat);
    }
    if n >= 10 {
        lemma_decimal_reads_back(n / 10);
        let s = decimal_spec(n);
        assert(s.drop_last() =~= decimal_spec(n / 10));
        assert(s.last() == digit_char(n % 10));
        assert(decimal_value(s) == decimal_value(decimal_spec(n / 10)) * 10 + ((digit_char(n % 10) as u32) - 48) as nat);
        assert((n / 10) * 10 + n % 10 == n);
        assert(s[0] == decimal_spec(n / 10)[0]);
        assert forall|i: int| 0 <= i < s.len() implies '0' <= #[trigger] s[i] <= '9' by {
            if i < s.len() - 1 {
                assert(s[i] == decimal_spec(n / 10)[i]);
            }
        }
    }
}

} // verus!
