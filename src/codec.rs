use vstd::prelude::*;

verus! {

/// A clock snapshot as it travels between processes, with the identity of the
/// process that sent it.
pub struct PeerMessage {
    pub sender: Vec<u8>,
    pub clock: Vec<u64>,
}

/// Why a payload could not be read as a message.
#[derive(Debug, Clone, Copy, PartialEq, Eq, Structural)]
pub enum CodecError {
    /// Well formed, but with another number of clock entries than expected.
    MalformedClock,
    /// Not a message at all.
    MalformedMessage,
}

pub open spec fn is_digit(b: u8) -> bool {
    48 <= b <= 57
}

/// A byte that may stand in a sender identity as it is: no quote, no
/// backslash, no control character.
pub open spec fn is_plain(b: u8) -> bool {
    b >= 32 && b != 34 && b != 92
}

/// The lowercase hexadecimal digit for `d`, below 16.
pub open spec fn hex_digit(d: nat) -> u8 {
    if d < 10 {
        (48 + d) as u8
    } else {
        (87 + d) as u8
    }
}

pub open spec fn is_hex_digit(b: u8) -> bool {
    is_digit(b) || 97 <= b <= 102
}

pub open spec fn hex_value(b: u8) -> nat {
    if is_digit(b) {
        (b - 48) as nat
    } else {
        (b - 87) as nat
    }
}

/// How one byte of a sender identity is written: a quote or a backslash
/// behind a backslash, a control byte as `\u00` and two hexadecimal digits,
/// any other byte as it is.
pub open spec fn escape(x: u8) -> Seq<u8> {
    if x == 34 {
        seq![92u8, 34]
    } else if x == 92 {
        seq![92u8, 92]
    } else if x < 32 {
        seq![92u8, 117, 48, 48, hex_digit(x as nat / 16), hex_digit(x as nat % 16)]
    } else {
        seq![x]
    }
}

/// A sender identity as it is written between its quotes.
pub open spec fn escaped(s: Seq<u8>) -> Seq<u8>
    decreases s.len(),
{
    if s.len() == 0 {
        seq![]
    } else {
        escape(s[0]) + escaped(s.drop_first())
    }
}

/// `{"sender_id":"`
pub open spec fn head() -> Seq<u8> {
    seq![123u8, 34, 115, 101, 110, 100, 101, 114, 95, 105, 100, 34, 58, 34]
}

/// `","clock":[`
pub open spec fn middle() -> Seq<u8> {
    seq![34u8, 44, 34, 99, 108, 111, 99, 107, 34, 58, 91]
}

/// `]}`
pub open spec fn tail() -> Seq<u8> {
    seq![93u8, 125]
}

/// Decimal digits of `v`, without leading zeros.
pub open spec fn digits(v: nat) -> Seq<u8>
    decreases v,
{
    if v < 10 {
        seq![(48 + v) as u8]
    } else {
        digits(v / 10).push((48 + v % 10) as u8)
    }
}

/// The entries of a clock in decimal, separated by commas.
pub open spec fn entries_text(c: Seq<u64>) -> Seq<u8>
    decreases c.len(),
{
    if c.len() == 0 {
        seq![]
    } else if c.len() == 1 {
        digits(c[0] as nat)
    } else {
        digits(c[0] as nat) + seq![44u8] + entries_text(c.drop_first())
    }
}

/// The bytes that carry a message.
pub open spec fn encoding(sender: Seq<u8>, clock: Seq<u64>) -> Seq<u8> {
    head() + escaped(sender) + middle() + entries_text(clock) + tail()
}

/// The byte that the escape sequence at `i` stands for, and the length of
/// the sequence.
pub open spec fn escape_at(b: Seq<u8>, i: int) -> Option<(u8, int)> {
    if 0 <= i && i + 1 < b.len() && b[i] == 92 && (b[i + 1] == 34 || b[i + 1] == 92) {
        Some((b[i + 1], 2))
    } else if 0 <= i && i + 5 < b.len() && b[i] == 92 && b[i + 1] == 117 && b[i + 2] == 48
        && b[i + 3] == 48 && (b[i + 4] == 48 || b[i + 4] == 49) && is_hex_digit(b[i + 5]) {
        Some((((b[i + 4] - 48) * 16 + hex_value(b[i + 5])) as u8, 6))
    } else {
        None
    }
}

/// The sender identity that begins at `i`, with its escapes undone, and the
/// position of the quote that ends it.
pub open spec fn string_at(b: Seq<u8>, i: int) -> Option<(Seq<u8>, int)>
    decreases b.len() - i,
{
    if i < 0 || i >= b.len() {
        None
    } else if b[i] == 34 {
        Some((seq![], i))
    } else if b[i] == 92 {
        match escape_at(b, i) {
            None => None,
            Some((x, l)) => if l > 0 {
                match string_at(b, i + l) {
                    None => None,
                    Some((r, e)) => Some((seq![x] + r, e)),
                }
            } else {
                None
            },
        }
    } else if is_plain(b[i]) {
        match string_at(b, i + 1) {
            None => None,
            Some((r, e)) => Some((seq![b[i]] + r, e)),
        }
    } else {
        None
    }
}

/// End of the run of digits that begins at `i`.
pub open spec fn digits_end(b: Seq<u8>, i: int) -> int
    decreases b.len() - i,
{
    if 0 <= i < b.len() && is_digit(b[i]) {
        digits_end(b, i + 1)
    } else {
        i
    }
}

/// The number that a run of decimal digits stands for.
pub open spec fn value(s: Seq<u8>) -> nat
    decreases s.len(),
{
    if s.len() == 0 {
        0
    } else {
        value(s.drop_last()) * 10 + (s.last() - 48) as nat
    }
}

/// The number at `i` and the position after it. A number has no leading
/// zero.
pub open spec fn number_at(b: Seq<u8>, i: int) -> Option<(u64, int)> {
    let j = digits_end(b, i);
    if j == i || (j > i + 1 && b[i] == 48) || value(b.subrange(i, j)) > u64::MAX {
        None
    } else {
        Some((value(b.subrange(i, j)) as u64, j))
    }
}

/// One or more numbers separated by commas and closed by `]`, from `i`; the
/// numbers and the position after the bracket.
pub open spec fn items_at(b: Seq<u8>, i: int) -> Option<(Seq<u64>, int)>
    decreases b.len() - i,
{
    match number_at(b, i) {
        None => None,
        Some((v, j)) => if i < j < b.len() && b[j] == 44 {
            match items_at(b, j + 1) {
                None => None,
                Some((rest, k)) => Some((seq![v] + rest, k)),
            }
        } else if i < j < b.len() && b[j] == 93 {
            Some((seq![v], j + 1))
        } else {
            None
        },
    }
}

/// A list of numbers after its `[`, up to and with its `]`.
pub open spec fn list_at(b: Seq<u8>, i: int) -> Option<(Seq<u64>, int)> {
    if 0 <= i < b.len() && b[i] == 93 {
        Some((seq![], i + 1))
    } else {
        items_at(b, i)
    }
}

pub open spec fn has_at(b: Seq<u8>, i: int, p: Seq<u8>) -> bool {
    0 <= i && i + p.len() <= b.len() && b.subrange(i, i + p.len()) == p
}

/// The sender and clock that the bytes carry, if they are a message.
pub open spec fn parse(b: Seq<u8>) -> Option<(Seq<u8>, Seq<u64>)> {
    if !has_at(b, 0, head()) {
        None
    } else {
        match string_at(b, 14) {
            None => None,
            Some((s, e)) => if !has_at(b, e, middle()) {
                None
            } else {
                match list_at(b, e + 11) {
                    None => None,
                    Some((c, k)) => if k + 1 == b.len() && b[k] == 125 {
                        Some((s, c))
                    } else {
                        None
                    },
                }
            },
        }
    }
}

/// What decoding the bytes gives when `n` clock entries are expected.
pub open spec fn decoded(b: Seq<u8>, n: nat) -> Result<(Seq<u8>, Seq<u64>), CodecError> {
    match parse(b) {
        None => Err(CodecError::MalformedMessage),
        Some((s, c)) => if c.len() == n {
            Ok((s, c))
        } else {
            Err(CodecError::MalformedClock)
        },
    }
}

proof fn lemma_digits(v: nat)
    ensures
        digits(v).len() >= 1,
        digits(v).len() > 1 ==> v >= 10,
        v >= 1 ==> digits(v)[0] != 48,
        forall|k: int| 0 <= k < digits(v).len() ==> is_digit(#[trigger] digits(v)[k]),
        value(digits(v)) == v,
    decreases v,
{
    if v >= 10 {
        lemma_digits(v / 10);
        let d = digits(v / 10);
        assert(digits(v).drop_last() =~= d);
        assert(digits(v)[0] == d[0]);
        assert(digits(v).last() == (48 + v % 10) as u8);
        assert(v == (v / 10) * 10 + v % 10);
        assert(value(digits(v)) == value(d) * 10 + (digits(v).last() - 48) as nat);
    } else {
        assert(digits(v).drop_last() =~= Seq::<u8>::empty());
        assert(value(digits(v)) == value(Seq::<u8>::empty()) * 10 + (digits(v).last() - 48) as nat);
    }
}

proof fn lemma_escape_read(b: Seq<u8>, i: int, x: u8)
    requires
        has_at(b, i, escape(x)),
        i + escape(x).len() < b.len(),
        x == 34 || x == 92 || x < 32,
    ensures
        escape_at(b, i) == Some((x, escape(x).len() as int)),
{
    let t = escape(x);
    assert forall|k: int| 0 <= k < t.len() implies b[i + k] == t[k] by {
        assert(b.subrange(i, i + t.len())[k] == t[k]);
    }
    if x != 34 && x != 92 {
        let h = x as nat / 16;
        let d = x as nat % 16;
        assert(x as nat == h * 16 + d && h < 2);
        assert(b[i + 4] == 48 + h);
        assert(hex_value(b[i + 5]) == d);
    }
}

proof fn lemma_escape_found(b: Seq<u8>, i: int, x: u8, l: int)
    requires
        escape_at(b, i) == Some((x, l)),
    ensures
        0 <= i,
        i + l <= b.len(),
        b.subrange(i, i + l) == escape(x),
{
    if l == 6 {
        let h = (b[i + 4] - 48) as nat;
        let d = hex_value(b[i + 5]);
        assert(d < 16);
        assert(x as nat == h * 16 + d);
        assert(x < 32);
        assert(x as nat / 16 == h && x as nat % 16 == d) by (nonlinear_arith)
            requires
                x as nat == h * 16 + d,
                d < 16,
        ;
        assert(hex_digit(h) == b[i + 4]);
        assert(hex_digit(d) == b[i + 5]);
    }
    assert(b.subrange(i, i + l) =~= escape(x));
}

proof fn lemma_escaped_push(s: Seq<u8>, x: u8)
    ensures
        escaped(s.push(x)) == escaped(s) + escape(x),
    decreases s.len(),
{
    assert(escaped(Seq::<u8>::empty()) == Seq::<u8>::empty());
    if s.len() == 0 {
        assert(s.push(x).drop_first() =~= Seq::<u8>::empty());
        assert(s.push(x)[0] == x);
        assert(escaped(s.push(x)) == escape(x) + escaped(s.push(x).drop_first()));
        assert(escaped(s.push(x)) =~= escaped(s) + escape(x));
    } else {
        assert(s.push(x).drop_first() =~= s.drop_first().push(x));
        assert(s.push(x)[0] == s[0]);
        lemma_escaped_push(s.drop_first(), x);
        assert(escaped(s.push(x)) == escape(s[0]) + escaped(s.push(x).drop_first()));
        assert(escaped(s) == escape(s[0]) + escaped(s.drop_first()));
        assert(escaped(s.push(x)) =~= escaped(s) + escape(x));
    }
}

/// A sender identity written with its escapes and closed by a quote, read
/// back.
proof fn lemma_string_at(b: Seq<u8>, i: int, s: Seq<u8>)
    requires
        has_at(b, i, escaped(s) + seq![34u8]),
    ensures
        string_at(b, i) == Some((s, i + escaped(s).len())),
    decreases s.len(),
{
    let w = escaped(s) + seq![34u8];
    if s.len() == 0 {
        assert(b[i] == b.subrange(i, i + w.len())[0]);
    } else {
        let x = s[0];
        let rest = s.drop_first();
        let t = escape(x);
        let l = t.len() as int;
        assert(w =~= t + (escaped(rest) + seq![34u8]));
        let u = escaped(rest) + seq![34u8];
        assert(b.subrange(i + l, i + l + u.len()) =~= u) by {
            assert forall|k: int| 0 <= k < u.len() implies b.subrange(i + l, i + l + u.len())[k]
                == u[k] by {
                assert(b.subrange(i, i + w.len())[l + k] == w[l + k]);
            }
        }
        assert(b.subrange(i, i + l) =~= t) by {
            assert forall|k: int| 0 <= k < l implies b.subrange(i, i + l)[k] == t[k] by {
                assert(b.subrange(i, i + w.len())[k] == w[k]);
            }
        }
        lemma_string_at(b, i + l, rest);
        assert(b[i] == t[0]);
        if x == 34 || x == 92 || x < 32 {
            lemma_escape_read(b, i, x);
        }
        assert(seq![x] + rest =~= s);
    }
}

proof fn lemma_string_found(b: Seq<u8>, i: int, s: Seq<u8>, e: int)
    requires
        string_at(b, i) == Some((s, e)),
    ensures
        0 <= i <= e < b.len(),
        b[e] == 34,
        b.subrange(i, e) == escaped(s),
    decreases b.len() - i,
{
    if b[i] == 34 {
        assert(b.subrange(i, e) =~= escaped(s));
    } else {
        let (x, l) = if b[i] == 92 {
            escape_at(b, i)->Some_0
        } else {
            (b[i], 1int)
        };
        if b[i] == 92 {
            lemma_escape_found(b, i, x, l);
        } else {
            assert(b.subrange(i, i + 1) =~= escape(x));
        }
        let (r, e2) = string_at(b, i + l)->Some_0;
        lemma_string_found(b, i + l, r, e2);
        assert(s == seq![x] + r);
        assert(s.drop_first() =~= r);
        assert(escaped(s) == escape(x) + escaped(r));
        assert(b.subrange(i, e) =~= b.subrange(i, i + l) + b.subrange(i + l, e));
    }
}

proof fn lemma_digits_end(b: Seq<u8>, i: int, j: int)
    requires
        0 <= i <= j <= b.len(),
        j == b.len() || !is_digit(b[j]),
        forall|k: int| i <= k < j ==> is_digit(#[trigger] b[k]),
    ensures
        digits_end(b, i) == j,
    decreases j - i,
{
    if i < j {
        lemma_digits_end(b, i + 1, j);
    }
}

/// The digits of `v` at `i`, followed by a byte that is no digit, read back.
proof fn lemma_number_at(b: Seq<u8>, i: int, v: u64)
    requires
        has_at(b, i, digits(v as nat)),
        i + digits(v as nat).len() < b.len(),
        !is_digit(b[i + digits(v as nat).len()]),
    ensures
        number_at(b, i) == Some((v, i + digits(v as nat).len())),
{
    let d = digits(v as nat);
    lemma_digits(v as nat);
    assert(d[0] == b[i]) by {
        assert(b.subrange(i, i + d.len())[0] == d[0]);
    }
    assert forall|k: int| i <= k < i + d.len() implies is_digit(#[trigger] b[k]) by {
        assert(b[k] == b.subrange(i, i + d.len())[k - i]);
    }
    lemma_digits_end(b, i, i + d.len());
}

proof fn lemma_items_at(b: Seq<u8>, i: int, c: Seq<u64>)
    requires
        c.len() >= 1,
        has_at(b, i, entries_text(c) + seq![93u8]),
    ensures
        items_at(b, i) == Some((c, i + entries_text(c).len() + 1)),
    decreases c.len(),
{
    let d = digits(c[0] as nat);
    let t = entries_text(c) + seq![93u8];
    lemma_digits(c[0] as nat);
    assert(b.subrange(i, i + d.len()) =~= d) by {
        assert forall|k: int| 0 <= k < d.len() implies b.subrange(i, i + d.len())[k] == d[k] by {
            assert(b.subrange(i, i + t.len())[k] == t[k]);
        }
    }
    assert(b[i + d.len()] == t[d.len() as int]) by {
        assert(b.subrange(i, i + t.len())[d.len() as int] == t[d.len() as int]);
    }
    lemma_number_at(b, i, c[0]);
    if c.len() > 1 {
        let rest = c.drop_first();
        let u = entries_text(rest) + seq![93u8];
        let j = i + d.len() + 1;
        assert(t =~= d + seq![44u8] + u);
        assert(b.subrange(j, j + u.len()) =~= u) by {
            assert forall|k: int| 0 <= k < u.len() implies b.subrange(j, j + u.len())[k] == u[k] by {
                assert(b.subrange(i, i + t.len())[d.len() + 1 + k] == t[d.len() + 1 + k]);
            }
        }
        lemma_items_at(b, j, rest);
        assert(seq![c[0]] + rest =~= c);
    } else {
        assert(entries_text(c) == d);
    }
}

/// Reading back the encoding of a message gives its sender and its clock.
pub proof fn lemma_parse_encoding(sender: Seq<u8>, clock: Seq<u64>)
    ensures
        parse(encoding(sender, clock)) == Some((sender, clock)),
{
    let b = encoding(sender, clock);
    let w = escaped(sender);
    let e: int = 14 + w.len() as int;
    let t = entries_text(clock);
    assert(b.subrange(0, 14) =~= head());
    assert(b.subrange(14, e + 1) =~= w + seq![34u8]);
    lemma_string_at(b, 14, sender);
    assert(b.subrange(e, e + 11) =~= middle());
    let l: int = e + 11;
    if clock.len() == 0 {
        assert(b[l] == 93);
        assert(b.len() == l + 2);
    } else {
        lemma_digits(clock[0] as nat);
        assert(is_digit(b[l])) by {
            assert(digits(clock[0] as nat) == entries_text(clock).subrange(
                0,
                digits(clock[0] as nat).len() as int,
            ));
            assert(b[l] == t[0]);
            assert(t[0] == digits(clock[0] as nat)[0]);
        }
        assert(b.subrange(l, l + t.len() + 1) =~= t + seq![93u8]);
        lemma_items_at(b, l, clock);
    }
}

proof fn lemma_value_positive(s: Seq<u8>)
    requires
        s.len() >= 1,
        forall|k: int| 0 <= k < s.len() ==> is_digit(#[trigger] s[k]),
        s[0] != 48,
    ensures
        value(s) >= 1,
    decreases s.len(),
{
    if s.len() > 1 {
        let t = s.drop_last();
        assert(t[0] == s[0]);
        assert forall|k: int| 0 <= k < t.len() implies is_digit(#[trigger] t[k]) by {
            assert(t[k] == s[k]);
        }
        lemma_value_positive(t);
    } else {
        assert(s.drop_last() =~= Seq::<u8>::empty());
    }
}

/// A run of digits without a leading zero is the decimal form of its value.
proof fn lemma_digits_of_value(s: Seq<u8>)
    requires
        s.len() >= 1,
        forall|k: int| 0 <= k < s.len() ==> is_digit(#[trigger] s[k]),
        !(s.len() > 1 && s[0] == 48),
    ensures
        digits(value(s)) == s,
    decreases s.len(),
{
    let v = value(s);
    if s.len() == 1 {
        assert(s.drop_last() =~= Seq::<u8>::empty());
        assert(is_digit(s[0]));
        assert(v == value(Seq::<u8>::empty()) * 10 + (s.last() - 48) as nat);
        assert(v < 10);
        assert(digits(v) =~= s);
    } else {
        let t = s.drop_last();
        let d = s.last();
        assert(t[0] == s[0]);
        assert forall|k: int| 0 <= k < t.len() implies is_digit(#[trigger] t[k]) by {
            assert(t[k] == s[k]);
        }
        lemma_digits_of_value(t);
        lemma_value_positive(t);
        assert(is_digit(d));
        let a = value(t);
        assert(v == a * 10 + (d - 48) as nat);
        assert(v / 10 == a && v % 10 == (d - 48) as nat) by (nonlinear_arith)
            requires
                v == a * 10 + (d - 48) as nat,
                0 <= d - 48 < 10,
        ;
        assert(digits(v) =~= s);
    }
}

proof fn lemma_digits_end_run(b: Seq<u8>, i: int)
    requires
        0 <= i <= b.len(),
    ensures
        i <= digits_end(b, i) <= b.len(),
        forall|k: int| i <= k < digits_end(b, i) ==> is_digit(#[trigger] b[k]),
        digits_end(b, i) == b.len() || !is_digit(b[digits_end(b, i)]),
    decreases b.len() - i,
{
    if i < b.len() && is_digit(b[i]) {
        lemma_digits_end_run(b, i + 1);
    }
}

proof fn lemma_number_found(b: Seq<u8>, i: int, v: u64, j: int)
    requires
        0 <= i <= b.len(),
        number_at(b, i) == Some((v, j)),
    ensures
        i < j <= b.len(),
        b.subrange(i, j) == digits(v as nat),
        j == b.len() || !is_digit(b[j]),
{
    lemma_digits_end_run(b, i);
    let s = b.subrange(i, j);
    assert forall|k: int| 0 <= k < s.len() implies is_digit(#[trigger] s[k]) by {
        assert(s[k] == b[i + k]);
    }
    lemma_digits_of_value(s);
}

proof fn lemma_items_found(b: Seq<u8>, i: int, c: Seq<u64>, k: int)
    requires
        0 <= i <= b.len(),
        items_at(b, i) == Some((c, k)),
    ensures
        c.len() >= 1,
        i < k <= b.len(),
        b.subrange(i, k) == entries_text(c) + seq![93u8],
    decreases b.len() - i,
{
    let (v, j) = number_at(b, i)->Some_0;
    lemma_number_found(b, i, v, j);
    let d = digits(v as nat);
    if b[j] == 44 {
        let (rest, k2) = items_at(b, j + 1)->Some_0;
        lemma_items_found(b, j + 1, rest, k2);
        assert(c == seq![v] + rest);
        assert(c.drop_first() =~= rest);
        assert(entries_text(c) == d + seq![44u8] + entries_text(rest));
        assert(b.subrange(i, k) =~= b.subrange(i, j) + seq![b[j]] + b.subrange(j + 1, k));
    } else {
        assert(c == seq![v]);
        assert(entries_text(c) == d);
        assert(b.subrange(i, k) =~= b.subrange(i, j) + seq![b[j]]);
    }
}

/// Decoding takes nothing but encodings: bytes that read as a message are
/// the encoding of what they read as.
pub proof fn lemma_parse_only_encodings(b: Seq<u8>)
    ensures
        parse(b) is Some ==> b == encoding(parse(b)->Some_0.0, parse(b)->Some_0.1),
{
    if parse(b) is Some {
        let (s, c) = parse(b)->Some_0;
        let (s2, e) = string_at(b, 14)->Some_0;
        lemma_string_found(b, 14, s2, e);
        assert(s2 == s);
        let (c2, k) = list_at(b, e + 11)->Some_0;
        assert(c2 == c);
        let l = e + 11;
        if 0 <= l < b.len() && b[l] == 93 {
            assert(c == Seq::<u64>::empty());
            assert(b.subrange(l, k + 1) =~= tail());
        } else {
            lemma_items_found(b, l, c, k);
            assert(b.subrange(l, k + 1) =~= b.subrange(l, k) + seq![b[k]]);
        }
        assert(b =~= b.subrange(0, 14) + b.subrange(14, e) + b.subrange(e, l) + b.subrange(
            l,
            k + 1,
        ));
        assert(b =~= encoding(s, c));
    }
}

/// Decoding undoes encoding: any message, encoded and then decoded with its
/// own number of entries, comes back as it was.
pub proof fn lemma_round_trip(sender: Seq<u8>, clock: Seq<u64>)
    ensures
        decoded(encoding(sender, clock), clock.len()) == Ok::<(Seq<u8>, Seq<u64>), CodecError>(
            (sender, clock),
        ),
{
    lemma_parse_encoding(sender, clock);
}

/// The encoding of a clock with another number of entries than expected
/// decodes to a clock error, and never to a message.
pub proof fn lemma_wrong_count(sender: Seq<u8>, clock: Seq<u64>, n: nat)
    requires
        clock.len() != n,
    ensures
        decoded(encoding(sender, clock), n) == Err::<(Seq<u8>, Seq<u64>), CodecError>(
            CodecError::MalformedClock,
        ),
{
    lemma_parse_encoding(sender, clock);
}

proof fn lemma_entries_text_push(c: Seq<u64>, x: u64)
    requires
        c.len() >= 1,
    ensures
        entries_text(c.push(x)) == entries_text(c) + seq![44u8] + digits(x as nat),
    decreases c.len(),
{
    let cx = c.push(x);
    assert(cx[0] == c[0]);
    if c.len() == 1 {
        assert(cx.drop_first() =~= seq![x]);
        assert(entries_text(seq![x]) == digits(x as nat));
        assert(entries_text(cx) == digits(c[0] as nat) + seq![44u8] + entries_text(cx.drop_first()));
    } else {
        assert(cx.drop_first() =~= c.drop_first().push(x));
        lemma_entries_text_push(c.drop_first(), x);
        assert(entries_text(cx) == digits(c[0] as nat) + seq![44u8] + entries_text(cx.drop_first()));
        assert(entries_text(c) == digits(c[0] as nat) + seq![44u8] + entries_text(c.drop_first()));
        assert(entries_text(cx) =~= entries_text(c) + seq![44u8] + digits(x as nat));
    }
}

fn push_bytes(out: &mut Vec<u8>, s: &[u8])
    ensures
        final(out)@ == old(out)@ + s@,
{
    let mut i: usize = 0;
    while i < s.len()
        invariant
            i <= s@.len(),
            out@ == old(out)@ + s@.subrange(0, i as int),
        decreases s@.len() - i,
    {
        out.push(s[i]);
        i += 1;
        assert(out@ =~= old(out)@ + s@.subrange(0, i as int));
    }
    assert(s@.subrange(0, i as int) =~= s@);
}

fn head_bytes() -> (r: Vec<u8>)
    ensures
        r@ == head(),
{
    let r: Vec<u8> = vec![123u8, 34, 115, 101, 110, 100, 101, 114, 95, 105, 100, 34, 58, 34];
    assert(r@ =~= head());
    r
}

fn middle_bytes() -> (r: Vec<u8>)
    ensures
        r@ == middle(),
{
    let r: Vec<u8> = vec![34u8, 44, 34, 99, 108, 111, 99, 107, 34, 58, 91];
    assert(r@ =~= middle());
    r
}

fn push_digits(out: &mut Vec<u8>, v: u64)
    ensures
        final(out)@ == old(out)@ + digits(v as nat),
    decreases v,
{
    if v >= 10 {
        push_digits(out, v / 10);
    }
    out.push((48 + v % 10) as u8);
    assert(out@ =~= old(out)@ + digits(v as nat));
}

/// The bytes that carry `msg`.
pub fn encode(msg: &PeerMessage) -> (r: Vec<u8>)
    ensures
        r@ == encoding(msg.sender@, msg.clock@),
{
    let mut out = head_bytes();
    push_escaped(&mut out, msg.sender.as_slice());
    let m = middle_bytes();
    push_bytes(&mut out, m.as_slice());
    let c = &msg.clock;
    let mut i: usize = 0;
    while i < c.len()
        invariant
            i <= c@.len(),
            out@ == head() + escaped(msg.sender@) + middle() + entries_text(c@.take(i as int)),
        decreases c@.len() - i,
    {
        let ghost pre = c@.take(i as int);
        if i > 0 {
            out.push(44);
        }
        push_digits(&mut out, c[i]);
        proof {
            assert(c@.take(i + 1) =~= pre.push(c@[i as int]));
            if i > 0 {
                lemma_entries_text_push(pre, c@[i as int]);
            } else {
                assert(pre.push(c@[0]) =~= seq![c@[0]]);
            }
        }
        i += 1;
        assert(out@ =~= head() + escaped(msg.sender@) + middle() + entries_text(c@.take(i as int)));
    }
    out.push(93);
    out.push(125);
    assert(c@.take(i as int) =~= c@);
    assert(out@ =~= encoding(msg.sender@, msg.clock@));
    out
}

fn has_at_exec(b: &[u8], i: usize, p: &Vec<u8>) -> (r: bool)
    ensures
        r == has_at(b@, i as int, p@),
{
    let bl = b.len();
    if i > bl || p.len() > bl - i {
        return false;
    }
    let mut k: usize = 0;
    while k < p.len()
        invariant
            bl == b@.len(),
            i + p@.len() <= b@.len(),
            k <= p@.len(),
            forall|t: int| 0 <= t < k ==> b@[i + t] == p@[t],
        decreases p@.len() - k,
    {
        if b[i + k] != p[k] {
            assert(b@.subrange(i as int, i + p@.len())[k as int] != p@[k as int]);
            return false;
        }
        k += 1;
    }
    assert(b@.subrange(i as int, i + p@.len()) =~= p@);
    true
}

proof fn lemma_value_grows(b: Seq<u8>, i: int, j: int, k: int)
    requires
        0 <= i <= j <= k <= b.len(),
    ensures
        value(b.subrange(i, k)) >= value(b.subrange(i, j)),
    decreases k - j,
{
    if j < k {
        lemma_value_grows(b, i, j, k - 1);
        assert(b.subrange(i, k).drop_last() =~= b.subrange(i, k - 1));
    }
}

proof fn lemma_digits_end_from(b: Seq<u8>, i: int, j: int)
    requires
        0 <= i <= j <= b.len(),
        forall|t: int| i <= t < j ==> is_digit(#[trigger] b[t]),
    ensures
        digits_end(b, i) == digits_end(b, j),
    decreases j - i,
{
    if i < j {
        lemma_digits_end_from(b, i + 1, j);
    }
}

fn read_number(b: &[u8], i: usize) -> (r: Option<(u64, usize)>)
    requires
        i <= b@.len(),
    ensures
        match r {
            None => number_at(b@, i as int) is None,
            Some((v, j)) => number_at(b@, i as int) == Some((v, j as int)),
        },
        r is Some ==> i < (r->0).1 <= b@.len(),
{
    let mut j: usize = i;
    let mut v: u64 = 0;
    while j < b.len() && 48 <= b[j] && b[j] <= 57
        invariant
            i <= j <= b@.len(),
            forall|t: int| i <= t < j ==> is_digit(#[trigger] b@[t]),
            v as nat == value(b@.subrange(i as int, j as int)),
        decreases b@.len() - j,
    {
        let d = (b[j] - 48) as u64;
        proof {
            assert(b@.subrange(i as int, j + 1).drop_last() =~= b@.subrange(i as int, j as int));
        }
        let next = match v.checked_mul(10) {
            Some(t) => t.checked_add(d),
            None => None,
        };
        match next {
            Some(t) => {
                v = t;
                j += 1;
            },
            None => {
                proof {
                    let e = digits_end(b@, j + 1);
                    lemma_digits_end_from(b@, i as int, j + 1);
                    assert(e >= j + 1 && e <= b@.len()) by {
                        lemma_digits_end_bounds(b@, j + 1);
                    }
                    lemma_value_grows(b@, i as int, j + 1, e);
                }
                return None;
            },
        }
    }
    proof {
        lemma_digits_end_from(b@, i as int, j as int);
    }
    if j == i || (j > i + 1 && b[i] == 48) {
        None
    } else {
        Some((v, j))
    }
}

proof fn lemma_digits_end_bounds(b: Seq<u8>, i: int)
    requires
        0 <= i <= b.len(),
    ensures
        i <= digits_end(b, i) <= b.len(),
    decreases b.len() - i,
{
    if i < b.len() && is_digit(b[i]) {
        lemma_digits_end_bounds(b, i + 1);
    }
}

pub open spec fn prepend(acc: Seq<u64>, r: Option<(Seq<u64>, int)>) -> Option<(Seq<u64>, int)> {
    match r {
        None => None,
        Some((x, k)) => Some((acc + x, k)),
    }
}

proof fn lemma_prepend_step(acc: Seq<u64>, v: u64, r: Option<(Seq<u64>, int)>)
    ensures
        prepend(
            acc,
            match r {
                None => None,
                Some((rest, k)) => Some((seq![v] + rest, k)),
            },
        ) == prepend(acc.push(v), r),
{
    match r {
        None => {},
        Some((rest, k)) => {
            assert(acc + (seq![v] + rest) =~= acc.push(v) + rest);
        },
    }
}

fn read_list(b: &[u8], i: usize) -> (r: Option<(Vec<u64>, usize)>)
    requires
        i <= b@.len(),
    ensures
        match r {
            None => list_at(b@, i as int) is None,
            Some((c, k)) => list_at(b@, i as int) == Some((c@, k as int)),
        },
        r is Some ==> (r->0).1 <= b@.len(),
{
    if i < b.len() && b[i] == 93 {
        return Some((Vec::new(), i + 1));
    }
    let mut acc: Vec<u64> = Vec::new();
    let mut p: usize = i;
    assert(acc@ + seq![] =~= Seq::<u64>::empty());
    assert(items_at(b@, i as int) == prepend(acc@, items_at(b@, p as int))) by {
        match items_at(b@, i as int) {
            None => {},
            Some((x, k)) => {
                assert(acc@ + x =~= x);
            },
        }
    }
    loop
        invariant
            p <= b@.len(),
            list_at(b@, i as int) == items_at(b@, i as int),
            items_at(b@, i as int) == prepend(acc@, items_at(b@, p as int)),
        decreases b@.len() - p,
    {
        match read_number(b, p) {
            None => {
                return None;
            },
            Some((v, j)) => {
                if j < b.len() && b[j] == 44 {
                    proof {
                        assert(items_at(b@, p as int) == match items_at(b@, j + 1) {
                            None => None,
                            Some((rest, k)) => Some((seq![v] + rest, k)),
                        });
                        lemma_prepend_step(acc@, v, items_at(b@, j + 1));
                    }
                    acc.push(v);
                    p = j + 1;
                } else if j < b.len() && b[j] == 93 {
                    proof {
                        assert(items_at(b@, p as int) == Some((seq![v], j + 1)));
                        assert(acc@ + seq![v] =~= acc@.push(v));
                    }
                    acc.push(v);
                    return Some((acc, j + 1));
                } else {
                    return None;
                }
            },
        }
    }
}

fn hex_byte(d: u8) -> (r: u8)
    requires
        d < 16,
    ensures
        r == hex_digit(d as nat),
{
    if d < 10 {
        48 + d
    } else {
        87 + d
    }
}

fn hex_val(c: u8) -> (r: u8)
    requires
        is_hex_digit(c),
    ensures
        r as nat == hex_value(c),
        r < 16,
{
    if c <= 57 {
        c - 48
    } else {
        c - 87
    }
}

fn push_escape(out: &mut Vec<u8>, x: u8)
    ensures
        final(out)@ == old(out)@ + escape(x),
{
    if x == 34 || x == 92 {
        out.push(92);
        out.push(x);
    } else if x < 32 {
        out.push(92);
        out.push(117);
        out.push(48);
        out.push(48);
        out.push(hex_byte(x / 16));
        out.push(hex_byte(x % 16));
    } else {
        out.push(x);
    }
    assert(out@ =~= old(out)@ + escape(x));
}

fn push_escaped(out: &mut Vec<u8>, s: &[u8])
    ensures
        final(out)@ == old(out)@ + escaped(s@),
{
    let mut i: usize = 0;
    while i < s.len()
        invariant
            i <= s@.len(),
            out@ == old(out)@ + escaped(s@.take(i as int)),
        decreases s@.len() - i,
    {
        proof {
            assert(s@.take(i + 1) =~= s@.take(i as int).push(s@[i as int]));
            lemma_escaped_push(s@.take(i as int), s@[i as int]);
        }
        push_escape(out, s[i]);
        i += 1;
        assert(out@ =~= old(out)@ + escaped(s@.take(i as int)));
    }
    assert(s@.take(i as int) =~= s@);
}

pub open spec fn prepend_bytes(acc: Seq<u8>, r: Option<(Seq<u8>, int)>) -> Option<(Seq<u8>, int)> {
    match r {
        None => None,
        Some((x, k)) => Some((acc + x, k)),
    }
}

proof fn lemma_prepend_bytes_step(acc: Seq<u8>, v: u8, r: Option<(Seq<u8>, int)>)
    ensures
        prepend_bytes(
            acc,
            match r {
                None => None,
                Some((rest, k)) => Some((seq![v] + rest, k)),
            },
        ) == prepend_bytes(acc.push(v), r),
{
    match r {
        None => {},
        Some((rest, k)) => {
            assert(acc + (seq![v] + rest) =~= acc.push(v) + rest);
        },
    }
}

fn read_string(b: &[u8], i: usize) -> (r: Option<(Vec<u8>, usize)>)
    ensures
        match r {
            None => string_at(b@, i as int) is None,
            Some((s, e)) => string_at(b@, i as int) == Some((s@, e as int)) && i <= e < b@.len(),
        },
{
    let mut acc: Vec<u8> = Vec::new();
    let mut k: usize = i;
    assert(string_at(b@, i as int) == prepend_bytes(acc@, string_at(b@, k as int))) by {
        match string_at(b@, i as int) {
            None => {},
            Some((x, e)) => {
                assert(acc@ + x =~= x);
            },
        }
    }
    while k < b.len()
        invariant
            i <= k,
            string_at(b@, i as int) == prepend_bytes(acc@, string_at(b@, k as int)),
        decreases b@.len() - k,
    {
        let c = b[k];
        if c == 34 {
            assert(acc@ + seq![] =~= acc@);
            return Some((acc, k));
        }
        let x: u8;
        let l: usize;
        if c == 92 {
            if k + 1 < b.len() && (b[k + 1] == 34 || b[k + 1] == 92) {
                x = b[k + 1];
                l = 2;
            } else if b.len() - k > 5 && b[k + 1] == 117 && b[k + 2] == 48 && b[k + 3] == 48 && (
            b[k + 4] == 48 || b[k + 4] == 49) && (b[k + 5] <= 57 && b[k + 5] >= 48 || 97 <= b[k
                + 5] && b[k + 5] <= 102) {
                let h = b[k + 4] - 48;
                let d = hex_val(b[k + 5]);
                x = h * 16 + d;
                l = 6;
            } else {
                return None;
            }
            assert(escape_at(b@, k as int) == Some((x, l as int)));
        } else if c >= 32 {
            x = c;
            l = 1;
        } else {
            return None;
        }
        proof {
            assert(string_at(b@, k as int) == match string_at(b@, k + l) {
                None => None,
                Some((r, e)) => Some((seq![x] + r, e)),
            });
            lemma_prepend_bytes_step(acc@, x, string_at(b@, k + l));
        }
        acc.push(x);
        k = k + l;
    }
    None
}

fn parse_exec(b: &[u8]) -> (r: Option<(Vec<u8>, Vec<u64>)>)
    ensures
        match parse(b@) {
            None => r is None,
            Some((s, c)) => r is Some && (r->0).0@ == s && (r->0).1@ == c,
        },
{
    let bl = b.len();
    let h = head_bytes();
    if !has_at_exec(b, 0, &h) {
        return None;
    }
    match read_string(b, 14) {
        None => None,
        Some((sender, e)) => {
            let m = middle_bytes();
            if !has_at_exec(b, e, &m) {
                return None;
            }
            match read_list(b, e + 11) {
                None => None,
                Some((c, k)) => {
                    if k < b.len() && k + 1 == b.len() && b[k] == 125 {
                        Some((sender, c))
                    } else {
                        None
                    }
                },
            }
        },
    }
}

/// Reads a message that should carry `n` clock entries. Fails with
/// `MalformedClock` where the bytes are a message with another number of
/// entries, and with `MalformedMessage` where they are no message.
pub fn decode(bytes: &[u8], n: usize) -> (r: Result<PeerMessage, CodecError>)
    ensures
        match decoded(bytes@, n as nat) {
            Ok((s, c)) => r is Ok && r->Ok_0.sender@ == s && r->Ok_0.clock@ == c,
            Err(e) => r == Err::<PeerMessage, CodecError>(e),
        },
{
    match parse_exec(bytes) {
        None => Err(CodecError::MalformedMessage),
        Some((sender, clock)) => {
            if clock.len() == n {
                Ok(PeerMessage { sender, clock })
            } else {
                Err(CodecError::MalformedClock)
            }
        },
    }
}

} // verus!
