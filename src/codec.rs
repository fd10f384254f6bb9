use vstd::prelude::*;
use vstd::utf8::*;
use crate::serial_types::{DataBits, FlowControl, Parity, PortModel, SerialPortInfo, StopBits};

verus! {

// The textual form of a port descriptor is a compact, field-tagged JSON
// object with the fields in a fixed order, for example
// {"name":"COM3","speed":9600,"data_bits":"Eight","parity":"None","stop_bits":"One","flow_control":"None"}
// Inside the name, `"` and `\` are escaped with a backslash and control bytes
// are written as `\u00XX` with lower-case hex digits. Decoding accepts exactly
// the texts that encoding produces.

pub const QUOTE: u8 = 34;

pub const BACKSLASH: u8 = 92;

pub const ZERO: u8 = 48;

/// The bytes of `{"name":"`.
pub open spec fn lit_open_name() -> Seq<u8> {
    seq!['{' as u8, '"' as u8, 'n' as u8, 'a' as u8, 'm' as u8, 'e' as u8, '"' as u8, ':' as u8, '"' as u8]
}

/// The bytes of `","speed":`.
pub open spec fn lit_key_speed() -> Seq<u8> {
    seq!['"' as u8, ',' as u8, '"' as u8, 's' as u8, 'p' as u8, 'e' as u8, 'e' as u8, 'd' as u8, '"' as u8, ':' as u8]
}

/// The bytes of `,"data_bits":"`.
pub open spec fn lit_key_data_bits() -> Seq<u8> {
    seq![',' as u8, '"' as u8, 'd' as u8, 'a' as u8, 't' as u8, 'a' as u8, '_' as u8, 'b' as u8, 'i' as u8, 't' as u8, 's' as u8, '"' as u8, ':' as u8, '"' as u8]
}

/// The bytes of `","parity":"`.
pub open spec fn lit_key_parity() -> Seq<u8> {
    seq!['"' as u8, ',' as u8, '"' as u8, 'p' as u8, 'a' as u8, 'r' as u8, 'i' as u8, 't' as u8, 'y' as u8, '"' as u8, ':' as u8, '"' as u8]
}

/// The bytes of `","stop_bits":"`.
pub open spec fn lit_key_stop_bits() -> Seq<u8> {
    seq!['"' as u8, ',' as u8, '"' as u8, 's' as u8, 't' as u8, 'o' as u8, 'p' as u8, '_' as u8, 'b' as u8, 'i' as u8, 't' as u8, 's' as u8, '"' as u8, ':' as u8, '"' as u8]
}

/// The bytes of `","flow_control":"`.
pub open spec fn lit_key_flow_control() -> Seq<u8> {
    seq!['"' as u8, ',' as u8, '"' as u8, 'f' as u8, 'l' as u8, 'o' as u8, 'w' as u8, '_' as u8, 'c' as u8, 'o' as u8, 'n' as u8, 't' as u8, 'r' as u8, 'o' as u8, 'l' as u8, '"' as u8, ':' as u8, '"' as u8]
}

/// The bytes of `"}`.
pub open spec fn lit_close() -> Seq<u8> {
    seq!['"' as u8, '}' as u8]
}

/// The bytes of `Five`.
pub open spec fn lit_five() -> Seq<u8> {
    seq!['F' as u8, 'i' as u8, 'v' as u8, 'e' as u8]
}

/// The bytes of `Six`.
pub open spec fn lit_six() -> Seq<u8> {
    seq!['S' as u8, 'i' as u8, 'x' as u8]
}

/// The bytes of `Seven`.
pub open spec fn lit_seven() -> Seq<u8> {
    seq!['S' as u8, 'e' as u8, 'v' as u8, 'e' as u8, 'n' as u8]
}

/// The bytes of `Eight`.
pub open spec fn lit_eight() -> Seq<u8> {
    seq!['E' as u8, 'i' as u8, 'g' as u8, 'h' as u8, 't' as u8]
}

/// The bytes of `None`.
pub open spec fn lit_none() -> Seq<u8> {
    seq!['N' as u8, 'o' as u8, 'n' as u8, 'e' as u8]
}

/// The bytes of `Odd`.
pub open spec fn lit_odd() -> Seq<u8> {
    seq!['O' as u8, 'd' as u8, 'd' as u8]
}

/// The bytes of `Even`.
pub open spec fn lit_even() -> Seq<u8> {
    seq!['E' as u8, 'v' as u8, 'e' as u8, 'n' as u8]
}

/// The bytes of `One`.
pub open spec fn lit_one() -> Seq<u8> {
    seq!['O' as u8, 'n' as u8, 'e' as u8]
}

/// The bytes of `Two`.
pub open spec fn lit_two() -> Seq<u8> {
    seq!['T' as u8, 'w' as u8, 'o' as u8]
}

/// The bytes of `Software`.
pub open spec fn lit_software() -> Seq<u8> {
    seq!['S' as u8, 'o' as u8, 'f' as u8, 't' as u8, 'w' as u8, 'a' as u8, 'r' as u8, 'e' as u8]
}

/// The bytes of `Hardware`.
pub open spec fn lit_hardware() -> Seq<u8> {
    seq!['H' as u8, 'a' as u8, 'r' as u8, 'd' as u8, 'w' as u8, 'a' as u8, 'r' as u8, 'e' as u8]
}

/// A lower-case hex digit for `v < 16`.
pub open spec fn hex_digit(v: u8) -> u8 {
    if v < 10 {
        (ZERO + v) as u8
    } else {
        ('a' as u8 + v - 10) as u8
    }
}

pub open spec fn is_hex_digit(c: u8) -> bool {
    (ZERO <= c <= '9' as u8) || ('a' as u8 <= c <= 'f' as u8)
}

pub open spec fn hex_value(c: u8) -> u8 {
    if c <= '9' as u8 {
        (c - ZERO) as u8
    } else {
        (c - 'a' as u8 + 10) as u8
    }
}

/// The letter of the short escape for `c` (backspace, tab, line feed, form
/// feed, carriage return), or 0 when `c` has none.
pub open spec fn short_escape(c: u8) -> u8 {
    if c == 8 {
        'b' as u8
    } else if c == 9 {
        't' as u8
    } else if c == 10 {
        'n' as u8
    } else if c == 12 {
        'f' as u8
    } else if c == 13 {
        'r' as u8
    } else {
        0
    }
}

/// The byte that a short escape letter stands for, or 0 when `e` is not one.
pub open spec fn short_unescape(e: u8) -> u8 {
    if e == 'b' as u8 {
        8
    } else if e == 't' as u8 {
        9
    } else if e == 'n' as u8 {
        10
    } else if e == 'f' as u8 {
        12
    } else if e == 'r' as u8 {
        13
    } else {
        0
    }
}

/// How one byte of the name is written.
pub open spec fn escape_byte(c: u8) -> Seq<u8> {
    if c == QUOTE {
        seq![BACKSLASH, QUOTE]
    } else if c == BACKSLASH {
        seq![BACKSLASH, BACKSLASH]
    } else if short_escape(c) != 0 {
        seq![BACKSLASH, short_escape(c)]
    } else if c < 0x20 {
        seq![BACKSLASH, 'u' as u8, ZERO, ZERO, (ZERO + c / 16) as u8, hex_digit((c % 16) as u8)]
    } else {
        seq![c]
    }
}

/// How the bytes of the name are written between the quotes.
pub open spec fn escape(s: Seq<u8>) -> Seq<u8>
    decreases s.len(),
{
    if s.len() == 0 {
        seq![]
    } else {
        escape_byte(s[0]) + escape(s.drop_first())
    }
}

/// The decimal digits of `n`, without leading zeros.
pub open spec fn digits(n: nat) -> Seq<u8>
    decreases n,
{
    if n < 10 {
        seq![(ZERO + n) as u8]
    } else {
        digits(n / 10) + seq![(ZERO + n % 10) as u8]
    }
}

pub open spec fn data_bits_word(v: DataBits) -> Seq<u8> {
    match v {
        DataBits::Five => lit_five(),
        DataBits::Six => lit_six(),
        DataBits::Seven => lit_seven(),
        DataBits::Eight => lit_eight(),
    }
}

pub open spec fn parity_word(v: Parity) -> Seq<u8> {
    match v {
        Parity::NoParity => lit_none(),
        Parity::Odd => lit_odd(),
        Parity::Even => lit_even(),
    }
}

pub open spec fn stop_bits_word(v: StopBits) -> Seq<u8> {
    match v {
        StopBits::One => lit_one(),
        StopBits::Two => lit_two(),
    }
}

pub open spec fn flow_control_word(v: FlowControl) -> Seq<u8> {
    match v {
        FlowControl::NoFlowControl => lit_none(),
        FlowControl::Software => lit_software(),
        FlowControl::Hardware => lit_hardware(),
    }
}

/// The textual form of a descriptor, as UTF-8 bytes. It is built from the
/// back: each `text_*` function is one piece followed by the rest.
#[verifier::opaque]
pub open spec fn descriptor_text(d: PortModel) -> Seq<u8> {
    lit_open_name() + text_name(d)
}

#[verifier::opaque]
pub open spec fn text_name(d: PortModel) -> Seq<u8> {
    escape(encode_utf8(d.name)) + text_speed_key(d)
}

#[verifier::opaque]
pub open spec fn text_speed_key(d: PortModel) -> Seq<u8> {
    lit_key_speed() + text_speed(d)
}

#[verifier::opaque]
pub open spec fn text_speed(d: PortModel) -> Seq<u8> {
    digits(d.speed as nat) + text_data_bits_key(d)
}

#[verifier::opaque]
pub open spec fn text_data_bits_key(d: PortModel) -> Seq<u8> {
    lit_key_data_bits() + text_data_bits(d)
}

#[verifier::opaque]
pub open spec fn text_data_bits(d: PortModel) -> Seq<u8> {
    data_bits_word(d.data_bits) + text_parity_key(d)
}

#[verifier::opaque]
pub open spec fn text_parity_key(d: PortModel) -> Seq<u8> {
    lit_key_parity() + text_parity(d)
}

#[verifier::opaque]
pub open spec fn text_parity(d: PortModel) -> Seq<u8> {
    parity_word(d.parity) + text_stop_bits_key(d)
}

#[verifier::opaque]
pub open spec fn text_stop_bits_key(d: PortModel) -> Seq<u8> {
    lit_key_stop_bits() + text_stop_bits(d)
}

#[verifier::opaque]
pub open spec fn text_stop_bits(d: PortModel) -> Seq<u8> {
    stop_bits_word(d.stop_bits) + text_flow_control_key(d)
}

#[verifier::opaque]
pub open spec fn text_flow_control_key(d: PortModel) -> Seq<u8> {
    lit_key_flow_control() + text_flow_control(d)
}

#[verifier::opaque]
pub open spec fn text_flow_control(d: PortModel) -> Seq<u8> {
    flow_control_word(d.flow_control) + lit_close()
}

proof fn lemma_escape_concat(a: Seq<u8>, b: Seq<u8>)
    ensures
        escape(a + b) == escape(a) + escape(b),
    decreases a.len(),
{
    if a.len() == 0 {
        assert(a + b =~= b);
        assert(escape(a) + escape(b) =~= escape(b));
    } else {
        assert((a + b).drop_first() =~= a.drop_first() + b);
        lemma_escape_concat(a.drop_first(), b);
        assert(escape(a + b) =~= escape(a) + escape(b));
    }
}

proof fn lemma_escape_single(c: u8)
    ensures
        escape(seq![c]) == escape_byte(c),
{
    assert(seq![c].drop_first() =~= Seq::<u8>::empty());
    assert(escape(Seq::<u8>::empty()) =~= Seq::<u8>::empty());
    assert(seq![c][0] == c);
    assert(escape(seq![c]) =~= escape_byte(c));
}

proof fn lemma_ascii_valid(s: Seq<u8>)
    requires
        forall|i: int| 0 <= i < s.len() ==> #[trigger] s[i] < 0x80,
    ensures
        valid_utf8(s),
    decreases s.len(),
{
    if s.len() > 0 {
        let b = s[0];
        assert((b & 0x7f) <= 0x7f) by (bit_vector);
        lemma_ascii_valid(s.subrange(1, s.len() as int));
    }
}

proof fn lemma_escape_unchanged(s: Seq<u8>)
    requires
        forall|i: int| 0 <= i < s.len() ==> #[trigger] s[i] >= 0x80,
    ensures
        escape(s) == s,
    decreases s.len(),
{
    if s.len() > 0 {
        lemma_escape_unchanged(s.drop_first());
        assert(escape(s) =~= s);
    }
}

proof fn lemma_escape_valid(s: Seq<u8>)
    requires
        valid_utf8(s),
    ensures
        valid_utf8(escape(s)),
    decreases s.len(),
{
    if s.len() > 0 {
        let w = length_of_first_scalar(s);
        let head = s.subrange(0, w);
        let tail = s.subrange(w, s.len() as int);
        assert(s =~= head + tail);
        lemma_escape_concat(head, tail);
        lemma_escape_valid(tail);
        if w == 1 {
            assert(head =~= seq![s[0]]);
            lemma_escape_single(s[0]);
            lemma_ascii_valid(escape_byte(s[0]));
        } else {
            lemma_escape_unchanged(head);
            assert(valid_first_scalar(head));
            assert(pop_first_scalar(head) =~= Seq::<u8>::empty());
            assert(valid_utf8(Seq::<u8>::empty()));
            assert(valid_utf8(head));
        }
        valid_utf8_concat(escape(head), escape(tail));
    }
}

proof fn lemma_digits_ascii(n: nat)
    ensures
        forall|i: int| 0 <= i < digits(n).len() ==> ZERO <= #[trigger] digits(n)[i] <= '9' as u8,
        digits(n).len() >= 1,
    decreases n,
{
    if n >= 10 {
        lemma_digits_ascii(n / 10);
    }
}

proof fn lemma_ascii_then(a: Seq<u8>, b: Seq<u8>)
    requires
        forall|i: int| 0 <= i < a.len() ==> #[trigger] a[i] < 0x80,
        valid_utf8(b),
    ensures
        valid_utf8(a + b),
{
    lemma_ascii_valid(a);
    valid_utf8_concat(a, b);
}

proof fn lemma_descriptor_text_valid(d: PortModel)
    ensures
        valid_utf8(descriptor_text(d)),
{
    broadcast use encode_utf8_valid_utf8;

    reveal(descriptor_text);
    reveal(text_name);
    reveal(text_speed_key);
    reveal(text_speed);
    reveal(text_data_bits_key);
    reveal(text_data_bits);
    reveal(text_parity_key);
    reveal(text_parity);
    reveal(text_stop_bits_key);
    reveal(text_stop_bits);
    reveal(text_flow_control_key);
    reveal(text_flow_control);
    lemma_ascii_valid(lit_close());
    lemma_ascii_then(flow_control_word(d.flow_control), lit_close());
    lemma_ascii_then(lit_key_flow_control(), text_flow_control(d));
    lemma_ascii_then(stop_bits_word(d.stop_bits), text_flow_control_key(d));
    lemma_ascii_then(lit_key_stop_bits(), text_stop_bits(d));
    lemma_ascii_then(parity_word(d.parity), text_stop_bits_key(d));
    lemma_ascii_then(lit_key_parity(), text_parity(d));
    lemma_ascii_then(data_bits_word(d.data_bits), text_parity_key(d));
    lemma_ascii_then(lit_key_data_bits(), text_data_bits(d));
    lemma_digits_ascii(d.speed as nat);
    lemma_ascii_then(digits(d.speed as nat), text_data_bits_key(d));
    lemma_ascii_then(lit_key_speed(), text_speed(d));
    lemma_escape_valid(encode_utf8(d.name));
    valid_utf8_concat(escape(encode_utf8(d.name)), text_speed_key(d));
    lemma_ascii_then(lit_open_name(), text_name(d));
}

pub open spec fn skip(b: Seq<u8>, n: int) -> Seq<u8> {
    b.subrange(n, b.len() as int)
}

pub open spec fn starts_with(b: Seq<u8>, p: Seq<u8>) -> bool {
    p.len() <= b.len() && b.subrange(0, p.len() as int) == p
}

/// Reads an escaped name up to, not including, its closing quote: the name's
/// bytes and the number of bytes read.
pub open spec fn unescape(b: Seq<u8>) -> Option<(Seq<u8>, nat)>
    decreases b.len(),
{
    if b.len() == 0 {
        None
    } else if b[0] == QUOTE {
        Some((seq![], 0))
    } else if b[0] == BACKSLASH {
        if b.len() >= 2 && (b[1] == QUOTE || b[1] == BACKSLASH) {
            match unescape(b.subrange(2, b.len() as int)) {
                Some((s, n)) => Some((seq![b[1]] + s, n + 2)),
                None => None,
            }
        } else if b.len() >= 2 && short_unescape(b[1]) != 0 {
            match unescape(b.subrange(2, b.len() as int)) {
                Some((s, n)) => Some((seq![short_unescape(b[1])] + s, n + 2)),
                None => None,
            }
        } else if b.len() >= 6 && b[1] == 'u' as u8 && b[2] == ZERO && b[3] == ZERO && (b[4] == ZERO
            || b[4] == ZERO + 1) && is_hex_digit(b[5]) && short_escape(
            ((b[4] - ZERO) * 16 + hex_value(b[5])) as u8,
        ) == 0 {
            match unescape(b.subrange(6, b.len() as int)) {
                Some((s, n)) => Some(
                    (seq![((b[4] - ZERO) * 16 + hex_value(b[5])) as u8] + s, n + 6),
                ),
                None => None,
            }
        } else {
            None
        }
    } else if b[0] < 0x20 {
        None
    } else {
        match unescape(b.drop_first()) {
            Some((s, n)) => Some((seq![b[0]] + s, n + 1)),
            None => None,
        }
    }
}

pub open spec fn is_digit(c: u8) -> bool {
    ZERO <= c <= ZERO + 9
}

/// The number of leading decimal digits.
pub open spec fn digit_run(b: Seq<u8>) -> nat
    decreases b.len(),
{
    if b.len() > 0 && is_digit(b[0]) {
        1 + digit_run(b.drop_first())
    } else {
        0
    }
}

/// The value of a sequence of decimal digits.
pub open spec fn digits_value(ds: Seq<u8>) -> nat
    decreases ds.len(),
{
    if ds.len() == 0 {
        0
    } else {
        digits_value(ds.drop_last()) * 10 + (ds.last() - ZERO) as nat
    }
}

/// Reads a number in canonical decimal form (no leading zeros) that fits in
/// 32 bits: its value and the number of digits.
pub open spec fn parse_number(b: Seq<u8>) -> Option<(u32, nat)> {
    let k = digit_run(b);
    let v = digits_value(b.subrange(0, k as int));
    if k == 0 || (k > 1 && b[0] == ZERO) || v > u32::MAX {
        None
    } else {
        Some((v as u32, k))
    }
}

pub open spec fn parse_data_bits(b: Seq<u8>) -> Option<DataBits> {
    if b.len() > 0 && b[0] == 'F' as u8 && starts_with(b, lit_five()) {
        Some(DataBits::Five)
    } else if b.len() > 1 && b[0] == 'S' as u8 && b[1] == 'i' as u8 && starts_with(b, lit_six()) {
        Some(DataBits::Six)
    } else if b.len() > 1 && b[0] == 'S' as u8 && b[1] == 'e' as u8 && starts_with(b, lit_seven()) {
        Some(DataBits::Seven)
    } else if b.len() > 0 && b[0] == 'E' as u8 && starts_with(b, lit_eight()) {
        Some(DataBits::Eight)
    } else {
        None
    }
}

pub open spec fn parse_parity(b: Seq<u8>) -> Option<Parity> {
    if b.len() > 0 && b[0] == 'N' as u8 && starts_with(b, lit_none()) {
        Some(Parity::NoParity)
    } else if b.len() > 0 && b[0] == 'O' as u8 && starts_with(b, lit_odd()) {
        Some(Parity::Odd)
    } else if b.len() > 0 && b[0] == 'E' as u8 && starts_with(b, lit_even()) {
        Some(Parity::Even)
    } else {
        None
    }
}

pub open spec fn parse_stop_bits(b: Seq<u8>) -> Option<StopBits> {
    if b.len() > 0 && b[0] == 'O' as u8 && starts_with(b, lit_one()) {
        Some(StopBits::One)
    } else if b.len() > 0 && b[0] == 'T' as u8 && starts_with(b, lit_two()) {
        Some(StopBits::Two)
    } else {
        None
    }
}

pub open spec fn parse_flow_control(b: Seq<u8>) -> Option<FlowControl> {
    if b.len() > 0 && b[0] == 'N' as u8 && starts_with(b, lit_none()) {
        Some(FlowControl::NoFlowControl)
    } else if b.len() > 0 && b[0] == 'S' as u8 && starts_with(b, lit_software()) {
        Some(FlowControl::Software)
    } else if b.len() > 0 && b[0] == 'H' as u8 && starts_with(b, lit_hardware()) {
        Some(FlowControl::Hardware)
    } else {
        None
    }
}

/// The descriptor that a text denotes, if it is the textual form of one.
pub open spec fn decode_descriptor(b: Seq<u8>) -> Option<PortModel> {
    if starts_with(b, lit_open_name()) {
        decode_name(skip(b, lit_open_name().len() as int))
    } else {
        None
    }
}

pub open spec fn decode_name(b: Seq<u8>) -> Option<PortModel> {
    match unescape(b) {
        Some((nb, n)) => if valid_utf8(nb) {
            decode_speed(decode_utf8(nb), skip(b, n as int))
        } else {
            None
        },
        None => None,
    }
}

pub open spec fn decode_speed(name: Seq<char>, b: Seq<u8>) -> Option<PortModel> {
    if starts_with(b, lit_key_speed()) {
        let t = skip(b, lit_key_speed().len() as int);
        match parse_number(t) {
            Some((v, k)) => if v == 0 {
                None
            } else {
                decode_data_bits(name, v, skip(t, k as int))
            },
            None => None,
        }
    } else {
        None
    }
}

pub open spec fn decode_data_bits(name: Seq<char>, speed: u32, b: Seq<u8>) -> Option<PortModel> {
    if starts_with(b, lit_key_data_bits()) {
        let t = skip(b, lit_key_data_bits().len() as int);
        match parse_data_bits(t) {
            Some(v) => decode_parity(name, speed, v, skip(t, data_bits_word(v).len() as int)),
            None => None,
        }
    } else {
        None
    }
}

pub open spec fn decode_parity(name: Seq<char>, speed: u32, data_bits: DataBits, b: Seq<u8>) -> Option<
    PortModel,
> {
    if starts_with(b, lit_key_parity()) {
        let t = skip(b, lit_key_parity().len() as int);
        match parse_parity(t) {
            Some(v) => decode_stop_bits(
                name,
                speed,
                data_bits,
                v,
                skip(t, parity_word(v).len() as int),
            ),
            None => None,
        }
    } else {
        None
    }
}

pub open spec fn decode_stop_bits(
    name: Seq<char>,
    speed: u32,
    data_bits: DataBits,
    parity: Parity,
    b: Seq<u8>,
) -> Option<PortModel> {
    if starts_with(b, lit_key_stop_bits()) {
        let t = skip(b, lit_key_stop_bits().len() as int);
        match parse_stop_bits(t) {
            Some(v) => decode_flow_control(
                name,
                speed,
                data_bits,
                parity,
                v,
                skip(t, stop_bits_word(v).len() as int),
            ),
            None => None,
        }
    } else {
        None
    }
}

pub open spec fn decode_flow_control(
    name: Seq<char>,
    speed: u32,
    data_bits: DataBits,
    parity: Parity,
    stop_bits: StopBits,
    b: Seq<u8>,
) -> Option<PortModel> {
    if starts_with(b, lit_key_flow_control()) {
        let t = skip(b, lit_key_flow_control().len() as int);
        match parse_flow_control(t) {
            Some(v) => if skip(t, flow_control_word(v).len() as int) == lit_close() {
                Some(PortModel { name, speed, data_bits, parity, stop_bits, flow_control: v })
            } else {
                None
            },
            None => None,
        }
    } else {
        None
    }
}

proof fn lemma_unescape_escape(s: Seq<u8>, rest: Seq<u8>)
    requires
        rest.len() > 0,
        rest[0] == QUOTE,
    ensures
        unescape(escape(s) + rest) == Some((s, escape(s).len())),
    decreases s.len(),
{
    let b = escape(s) + rest;
    if s.len() == 0 {
        assert(b =~= rest);
        assert(s =~= Seq::<u8>::empty());
    } else {
        let c = s[0];
        let t = s.drop_first();
        lemma_unescape_escape(t, rest);
        let e = escape_byte(c);
        assert(b =~= e + (escape(t) + rest));
        assert(b.subrange(e.len() as int, b.len() as int) =~= escape(t) + rest);
        assert(s =~= seq![c] + t);
        if c < 0x20 && c != QUOTE && c != BACKSLASH {
            let low = (c % 16) as u8;
            assert(hex_value(hex_digit(low)) == low);
            assert(((ZERO + c / 16) as u8 - ZERO) * 16 + low == c);
        }
    }
}

proof fn lemma_digit_run_concat(ds: Seq<u8>, rest: Seq<u8>)
    requires
        forall|i: int| 0 <= i < ds.len() ==> is_digit(#[trigger] ds[i]),
    ensures
        digit_run(ds + rest) == ds.len() + digit_run(rest),
    decreases ds.len(),
{
    if ds.len() == 0 {
        assert(ds + rest =~= rest);
    } else {
        assert((ds + rest).drop_first() =~= ds.drop_first() + rest);
        lemma_digit_run_concat(ds.drop_first(), rest);
    }
}

proof fn lemma_digits_value(n: nat)
    ensures
        digits_value(digits(n)) == n,
        n >= 1 ==> digits(n)[0] != ZERO,
    decreases n,
{
    if n >= 10 {
        lemma_digits_value(n / 10);
        lemma_digits_ascii(n / 10);
        assert(digits(n).drop_last() =~= digits(n / 10));
        assert(digits(n).last() == (ZERO + n % 10) as u8);
        assert((digits(n).last() - ZERO) as nat == n % 10);
        assert(digits_value(digits(n)) == digits_value(digits(n / 10)) * 10 + n % 10);
        assert((n / 10) * 10 + n % 10 == n);
    } else {
        assert(digits(n).drop_last() =~= Seq::<u8>::empty());
        assert(digits(n).last() == (ZERO + n) as u8);
        assert(digits_value(Seq::<u8>::empty()) == 0);
        assert(digits_value(digits(n)) == digits_value(Seq::<u8>::empty()) * 10 + n);
    }
}

proof fn lemma_parse_number_digits(n: u32, rest: Seq<u8>)
    requires
        rest.len() == 0 || !is_digit(rest[0]),
    ensures
        parse_number(digits(n as nat) + rest) == Some((n, digits(n as nat).len())),
{
    let ds = digits(n as nat);
    lemma_digits_ascii(n as nat);
    lemma_digit_run_concat(ds, rest);
    lemma_digits_value(n as nat);
    assert((ds + rest).subrange(0, ds.len() as int) =~= ds);
    if n < 10 {
        assert(ds.len() == 1);
    }
}

proof fn lemma_parse_words(
    data_bits: DataBits,
    parity: Parity,
    stop_bits: StopBits,
    flow_control: FlowControl,
    rest: Seq<u8>,
)
    ensures
        parse_data_bits(data_bits_word(data_bits) + rest) == Some(data_bits),
        parse_parity(parity_word(parity) + rest) == Some(parity),
        parse_stop_bits(stop_bits_word(stop_bits) + rest) == Some(stop_bits),
        parse_flow_control(flow_control_word(flow_control) + rest) == Some(flow_control),
{
    let w = data_bits_word(data_bits);
    assert((w + rest).subrange(0, w.len() as int) =~= w);
    let w = parity_word(parity);
    assert((w + rest).subrange(0, w.len() as int) =~= w);
    let w = stop_bits_word(stop_bits);
    assert((w + rest).subrange(0, w.len() as int) =~= w);
    let w = flow_control_word(flow_control);
    assert((w + rest).subrange(0, w.len() as int) =~= w);
}

proof fn lemma_starts_then(p: Seq<u8>, rest: Seq<u8>)
    ensures
        starts_with(p + rest, p),
        skip(p + rest, p.len() as int) == rest,
{
    assert((p + rest).subrange(0, p.len() as int) =~= p);
    assert(skip(p + rest, p.len() as int) =~= rest);
}

proof fn lemma_decode_flow_control(d: PortModel)
    ensures
        decode_flow_control(d.name, d.speed, d.data_bits, d.parity, d.stop_bits, text_flow_control_key(d))
            == Some(d),
{
    reveal(text_flow_control_key);
    reveal(text_flow_control);
    lemma_parse_words(d.data_bits, d.parity, d.stop_bits, d.flow_control, lit_close());
    lemma_starts_then(lit_key_flow_control(), text_flow_control(d));
    lemma_starts_then(flow_control_word(d.flow_control), lit_close());
}

proof fn lemma_decode_stop_bits(d: PortModel)
    ensures
        decode_stop_bits(d.name, d.speed, d.data_bits, d.parity, text_stop_bits_key(d)) == Some(d),
{
    reveal(text_stop_bits_key);
    reveal(text_stop_bits);
    lemma_parse_words(d.data_bits, d.parity, d.stop_bits, d.flow_control, text_flow_control_key(d));
    lemma_starts_then(lit_key_stop_bits(), text_stop_bits(d));
    lemma_starts_then(stop_bits_word(d.stop_bits), text_flow_control_key(d));
    lemma_decode_flow_control(d);
}

proof fn lemma_decode_parity(d: PortModel)
    ensures
        decode_parity(d.name, d.speed, d.data_bits, text_parity_key(d)) == Some(d),
{
    reveal(text_parity_key);
    reveal(text_parity);
    lemma_parse_words(d.data_bits, d.parity, d.stop_bits, d.flow_control, text_stop_bits_key(d));
    lemma_starts_then(lit_key_parity(), text_parity(d));
    lemma_starts_then(parity_word(d.parity), text_stop_bits_key(d));
    lemma_decode_stop_bits(d);
}

proof fn lemma_decode_data_bits(d: PortModel)
    ensures
        decode_data_bits(d.name, d.speed, text_data_bits_key(d)) == Some(d),
{
    reveal(text_data_bits_key);
    reveal(text_data_bits);
    lemma_parse_words(d.data_bits, d.parity, d.stop_bits, d.flow_control, text_parity_key(d));
    lemma_starts_then(lit_key_data_bits(), text_data_bits(d));
    lemma_starts_then(data_bits_word(d.data_bits), text_parity_key(d));
    lemma_decode_parity(d);
}

proof fn lemma_decode_speed(d: PortModel)
    requires
        d.speed > 0,
    ensures
        decode_speed(d.name, text_speed_key(d)) == Some(d),
{
    reveal(text_speed_key);
    reveal(text_speed);
    lemma_starts_then(lit_key_speed(), text_speed(d));
    assert(text_data_bits_key(d)[0] == ',' as u8) by {
        reveal(text_data_bits_key);
    }
    lemma_parse_number_digits(d.speed, text_data_bits_key(d));
    lemma_starts_then(digits(d.speed as nat), text_data_bits_key(d));
    lemma_decode_data_bits(d);
}

/// Decoding the textual form of any valid descriptor (one with a positive
/// baud rate) gives that descriptor back.
pub proof fn lemma_descriptor_round_trip(d: PortModel)
    requires
        d.wf(),
    ensures
        decode_descriptor(descriptor_text(d)) == Some(d),
{
    broadcast use encode_utf8_valid_utf8, encode_utf8_decode_utf8;

    reveal(descriptor_text);
    reveal(text_name);
    lemma_starts_then(lit_open_name(), text_name(d));
    let nb = encode_utf8(d.name);
    reveal(text_speed_key);
    lemma_unescape_escape(nb, text_speed_key(d));
    lemma_starts_then(escape(nb), text_speed_key(d));
    lemma_decode_speed(d);
}

proof fn lemma_unescape_sound(b: Seq<u8>)
    ensures
        match unescape(b) {
            Some((s, n)) => n < b.len() && b.subrange(0, n as int) == escape(s) && b[n as int] == QUOTE,
            None => true,
        },
    decreases b.len(),
{
    if b.len() == 0 {
    } else if b[0] == QUOTE {
        assert(escape(Seq::<u8>::empty()) =~= Seq::<u8>::empty());
        assert(b.subrange(0, 0) =~= Seq::<u8>::empty());
    } else if b[0] < 0x20 && b[0] != BACKSLASH {
    } else {
        let step: int = if b[0] != BACKSLASH {
            1
        } else if b.len() >= 2 && (b[1] == QUOTE || b[1] == BACKSLASH || short_unescape(b[1])
            != 0) {
            2
        } else {
            6
        };
        if step <= b.len() && unescape(b) is Some {
            let b2 = b.subrange(step, b.len() as int);
            if step == 1 {
                assert(b.drop_first() =~= b2);
            }
            lemma_unescape_sound(b2);
            let (s2, n2) = unescape(b2)->Some_0;
            let (s, n) = unescape(b)->Some_0;
            let c = s[0];
            assert(s.drop_first() =~= s2);
            assert(n == n2 + step);
            if step == 6 {
                let low = hex_value(b[5]);
                assert(c % 16 == low);
                assert(c / 16 == b[4] - ZERO);
                assert(hex_digit(low) == b[5]);
            }
            assert(escape_byte(c) =~= b.subrange(0, step));
            assert(b.subrange(0, n as int) =~= b.subrange(0, step) + b2.subrange(0, n2 as int));
            assert(b[n as int] == b2[n2 as int]);
        }
    }
}

proof fn lemma_digit_run_facts(b: Seq<u8>)
    ensures
        digit_run(b) <= b.len(),
        forall|i: int| 0 <= i < digit_run(b) ==> is_digit(#[trigger] b[i]),
        digit_run(b) < b.len() ==> !is_digit(b[digit_run(b) as int]),
    decreases b.len(),
{
    if b.len() > 0 && is_digit(b[0]) {
        lemma_digit_run_facts(b.drop_first());
        assert forall|i: int| 0 <= i < digit_run(b) implies is_digit(#[trigger] b[i]) by {
            if i > 0 {
                assert(b[i] == b.drop_first()[i - 1]);
            }
        }
    }
}

proof fn lemma_value_positive(ds: Seq<u8>)
    requires
        ds.len() >= 1,
        forall|i: int| 0 <= i < ds.len() ==> is_digit(#[trigger] ds[i]),
        ds[0] != ZERO,
    ensures
        digits_value(ds) >= 1,
    decreases ds.len(),
{
    if ds.len() > 1 {
        lemma_value_positive(ds.drop_last());
    } else {
        assert(digits_value(ds.drop_last()) == 0);
    }
}

proof fn lemma_canonical_digits(ds: Seq<u8>)
    requires
        ds.len() >= 1,
        forall|i: int| 0 <= i < ds.len() ==> is_digit(#[trigger] ds[i]),
        ds.len() > 1 ==> ds[0] != ZERO,
    ensures
        digits(digits_value(ds)) == ds,
    decreases ds.len(),
{
    let v = digits_value(ds);
    let d = (ds.last() - ZERO) as nat;
    assert(is_digit(ds[ds.len() - 1]));
    if ds.len() == 1 {
        assert(digits_value(ds.drop_last()) == 0);
        assert(digits(v) =~= ds);
    } else {
        let front = ds.drop_last();
        lemma_canonical_digits(front);
        lemma_value_positive(front);
        let w = digits_value(front);
        assert(v == w * 10 + d);
        assert(v / 10 == w && v % 10 == d) by (nonlinear_arith)
            requires
                v == w * 10 + d,
                d < 10,
        ;
        assert(digits(v) =~= ds);
    }
}

proof fn lemma_parse_number_sound(b: Seq<u8>)
    ensures
        match parse_number(b) {
            Some((v, k)) => k <= b.len() && b.subrange(0, k as int) == digits(v as nat) && (k
                < b.len() ==> !is_digit(b[k as int])),
            None => true,
        },
{
    lemma_digit_run_facts(b);
    let k = digit_run(b);
    if parse_number(b) is Some {
        let ds = b.subrange(0, k as int);
        lemma_canonical_digits(ds);
    }
}

proof fn lemma_flow_control_sound(
    name: Seq<char>,
    speed: u32,
    data_bits: DataBits,
    parity: Parity,
    stop_bits: StopBits,
    b: Seq<u8>,
)
    ensures
        match decode_flow_control(name, speed, data_bits, parity, stop_bits, b) {
            Some(d) => b == text_flow_control_key(d) && d.name == name && d.speed == speed
                && d.data_bits == data_bits && d.parity == parity && d.stop_bits == stop_bits,
            None => true,
        },
{
    match decode_flow_control(name, speed, data_bits, parity, stop_bits, b) {
        Some(d) => {
            reveal(text_flow_control_key);
            reveal(text_flow_control);
            let t = skip(b, lit_key_flow_control().len() as int);
            let w = flow_control_word(d.flow_control);
            assert(b =~= lit_key_flow_control() + t);
            assert(t =~= w + skip(t, w.len() as int));
        },
        None => {},
    }
}

proof fn lemma_stop_bits_sound(
    name: Seq<char>,
    speed: u32,
    data_bits: DataBits,
    parity: Parity,
    b: Seq<u8>,
)
    ensures
        match decode_stop_bits(name, speed, data_bits, parity, b) {
            Some(d) => b == text_stop_bits_key(d) && d.name == name && d.speed == speed
                && d.data_bits == data_bits && d.parity == parity,
            None => true,
        },
{
    match decode_stop_bits(name, speed, data_bits, parity, b) {
        Some(d) => {
            reveal(text_stop_bits_key);
            reveal(text_stop_bits);
            let t = skip(b, lit_key_stop_bits().len() as int);
            let v = parse_stop_bits(t)->Some_0;
            let w = stop_bits_word(v);
            let rest = skip(t, w.len() as int);
            lemma_flow_control_sound(name, speed, data_bits, parity, v, rest);
            assert(b =~= lit_key_stop_bits() + t);
            assert(t =~= w + rest);
        },
        None => {},
    }
}

proof fn lemma_parity_sound(name: Seq<char>, speed: u32, data_bits: DataBits, b: Seq<u8>)
    ensures
        match decode_parity(name, speed, data_bits, b) {
            Some(d) => b == text_parity_key(d) && d.name == name && d.speed == speed && d.data_bits
                == data_bits,
            None => true,
        },
{
    match decode_parity(name, speed, data_bits, b) {
        Some(d) => {
            reveal(text_parity_key);
            reveal(text_parity);
            let t = skip(b, lit_key_parity().len() as int);
            let v = parse_parity(t)->Some_0;
            let w = parity_word(v);
            let rest = skip(t, w.len() as int);
            lemma_stop_bits_sound(name, speed, data_bits, v, rest);
            assert(b =~= lit_key_parity() + t);
            assert(t =~= w + rest);
        },
        None => {},
    }
}

proof fn lemma_data_bits_sound(name: Seq<char>, speed: u32, b: Seq<u8>)
    ensures
        match decode_data_bits(name, speed, b) {
            Some(d) => b == text_data_bits_key(d) && d.name == name && d.speed == speed,
            None => true,
        },
{
    match decode_data_bits(name, speed, b) {
        Some(d) => {
            reveal(text_data_bits_key);
            reveal(text_data_bits);
            let t = skip(b, lit_key_data_bits().len() as int);
            let v = parse_data_bits(t)->Some_0;
            let w = data_bits_word(v);
            let rest = skip(t, w.len() as int);
            lemma_parity_sound(name, speed, v, rest);
            assert(b =~= lit_key_data_bits() + t);
            assert(t =~= w + rest);
        },
        None => {},
    }
}

proof fn lemma_speed_sound(name: Seq<char>, b: Seq<u8>)
    ensures
        match decode_speed(name, b) {
            Some(d) => b == text_speed_key(d) && d.name == name && d.speed > 0,
            None => true,
        },
{
    match decode_speed(name, b) {
        Some(d) => {
            reveal(text_speed_key);
            reveal(text_speed);
            let t = skip(b, lit_key_speed().len() as int);
            lemma_parse_number_sound(t);
            let (v, k) = parse_number(t)->Some_0;
            let rest = skip(t, k as int);
            lemma_data_bits_sound(name, v, rest);
            assert(b =~= lit_key_speed() + t);
            assert(t =~= digits(v as nat) + rest);
        },
        None => {},
    }
}

/// Decoding succeeds only on the exact textual form of the descriptor it
/// returns: every other text, malformed or not canonical, decodes to nothing.
pub proof fn lemma_decode_only_texts(b: Seq<u8>)
    ensures
        match decode_descriptor(b) {
            Some(d) => descriptor_text(d) == b && d.speed > 0,
            None => true,
        },
{
    broadcast use decode_utf8_encode_utf8;

    match decode_descriptor(b) {
        Some(d) => {
            reveal(descriptor_text);
            reveal(text_name);
            let t = skip(b, lit_open_name().len() as int);
            lemma_unescape_sound(t);
            let (nb, n) = unescape(t)->Some_0;
            let rest = skip(t, n as int);
            lemma_speed_sound(decode_utf8(nb), rest);
            assert(encode_utf8(d.name) == nb);
            assert(b =~= lit_open_name() + t);
            assert(t =~= escape(nb) + rest);
        },
        None => {},
    }
}

/// Relies on `String::from_utf8`: it succeeds exactly on valid UTF-8, and the
/// string then holds the characters that the bytes encode.
#[verifier::external_body]
fn string_from_utf8(bytes: Vec<u8>) -> (r: Option<String>)
    ensures
        r is Some <==> valid_utf8(bytes@),
        r is Some ==> encode_utf8(r->Some_0@) == bytes@,
{
    String::from_utf8(bytes).ok()
}

fn short_escape_of(c: u8) -> (r: u8)
    ensures
        r == short_escape(c),
{
    if c == 8 {
        'b' as u8
    } else if c == 9 {
        't' as u8
    } else if c == 10 {
        'n' as u8
    } else if c == 12 {
        'f' as u8
    } else if c == 13 {
        'r' as u8
    } else {
        0
    }
}

fn short_unescape_of(e: u8) -> (r: u8)
    ensures
        r == short_unescape(e),
{
    if e == 'b' as u8 {
        8
    } else if e == 't' as u8 {
        9
    } else if e == 'n' as u8 {
        10
    } else if e == 'f' as u8 {
        12
    } else if e == 'r' as u8 {
        13
    } else {
        0
    }
}

fn push_all(out: &mut Vec<u8>, lit: &[u8])
    ensures
        final(out)@ == old(out)@ + lit@,
{
    let mut i: usize = 0;
    while i < lit.len()
        invariant
            i <= lit@.len(),
            out@ == old(out)@ + lit@.subrange(0, i as int),
        decreases lit@.len() - i,
    {
        out.push(lit[i]);
        i = i + 1;
        assert(out@ =~= old(out)@ + lit@.subrange(0, i as int));
    }
    assert(lit@.subrange(0, i as int) =~= lit@);
}

fn push_escaped(out: &mut Vec<u8>, s: &[u8])
    ensures
        final(out)@ == old(out)@ + escape(s@),
{
    let mut i: usize = 0;
    while i < s.len()
        invariant
            i <= s@.len(),
            out@ == old(out)@ + escape(s@.subrange(0, i as int)),
        decreases s@.len() - i,
    {
        let c = s[i];
        let ghost before = out@;
        if c == QUOTE {
            out.push(BACKSLASH);
            out.push(QUOTE);
        } else if c == BACKSLASH {
            out.push(BACKSLASH);
            out.push(BACKSLASH);
        } else if short_escape_of(c) != 0 {
            out.push(BACKSLASH);
            out.push(short_escape_of(c));
        } else if c < 0x20 {
            out.push(BACKSLASH);
            out.push('u' as u8);
            out.push(ZERO);
            out.push(ZERO);
            out.push(ZERO + c / 16);
            let low = c % 16;
            if low < 10 {
                out.push(ZERO + low);
            } else {
                out.push('a' as u8 + low - 10);
            }
        } else {
            out.push(c);
        }
        proof {
            assert(out@ =~= before + escape_byte(c));
            assert(s@.subrange(0, i + 1) =~= s@.subrange(0, i as int) + seq![c]);
            lemma_escape_concat(s@.subrange(0, i as int), seq![c]);
            lemma_escape_single(c);
            assert(out@ =~= old(out)@ + escape(s@.subrange(0, i + 1)));
        }
        i = i + 1;
    }
    assert(s@.subrange(0, i as int) =~= s@);
}

fn push_digits(out: &mut Vec<u8>, n: u32)
    ensures
        final(out)@ == old(out)@ + digits(n as nat),
    decreases n,
{
    if n >= 10 {
        push_digits(out, n / 10);
    }
    out.push(ZERO + (n % 10) as u8);
    assert(out@ =~= old(out)@ + digits(n as nat));
}

fn matches_at(b: &[u8], pos: usize, lit: &[u8]) -> (r: bool)
    requires
        pos <= b@.len(),
    ensures
        r == starts_with(skip(b@, pos as int), lit@),
{
    let n = b.len();
    if lit.len() > n - pos {
        return false;
    }
    let mut i: usize = 0;
    while i < lit.len()
        invariant
            n == b@.len(),
            pos + lit@.len() <= b@.len(),
            i <= lit@.len(),
            b@.subrange(pos as int, pos + i) == lit@.subrange(0, i as int),
        decreases lit@.len() - i,
    {
        if b[pos + i] != lit[i] {
            assert(skip(b@, pos as int).subrange(0, lit@.len() as int)[i as int] != lit@[i as int]);
            return false;
        }
        assert(b@.subrange(pos as int, pos + i + 1) =~= lit@.subrange(0, i + 1));
        i = i + 1;
    }
    assert(lit@.subrange(0, i as int) =~= lit@);
    assert(skip(b@, pos as int).subrange(0, lit@.len() as int) =~= b@.subrange(
        pos as int,
        pos + lit@.len(),
    ));
    true
}

/// `r` read after `prefix` was already read, `k` bytes earlier.
pub open spec fn after(r: Option<(Seq<u8>, nat)>, prefix: Seq<u8>, k: nat) -> Option<(Seq<u8>, nat)> {
    match r {
        Some((s, n)) => Some((prefix + s, n + k)),
        None => None,
    }
}

fn take_name(b: &[u8], pos: usize) -> (r: Option<(Vec<u8>, usize)>)
    requires
        pos <= b@.len(),
    ensures
        match unescape(skip(b@, pos as int)) {
            Some((s, n)) => r is Some && r->Some_0.0@ == s && r->Some_0.1 == pos + n && pos + n
                <= b@.len(),
            None => r is None,
        },
{
    let mut out: Vec<u8> = Vec::new();
    let mut i: usize = pos;
    proof {
        match unescape(skip(b@, pos as int)) {
            Some((s, n)) => {
                assert(Seq::<u8>::empty() + s =~= s);
            },
            None => {},
        }
    }
    while i < b.len()
        invariant
            pos <= i <= b@.len(),
            after(unescape(skip(b@, i as int)), out@, (i - pos) as nat) == unescape(
                skip(b@, pos as int),
            ),
        decreases b@.len() - i,
    {
        let c = b[i];
        let ghost rest = skip(b@, i as int);
        let ghost prev = out@;
        assert(rest[0] == c);
        if c == QUOTE {
            assert(out@ + Seq::<u8>::empty() =~= out@);
            return Some((out, i));
        }
        let step: usize;
        if c == BACKSLASH {
            if b.len() - i > 1 && (b[i + 1] == QUOTE || b[i + 1] == BACKSLASH) {
                out.push(b[i + 1]);
                step = 2;
            } else if b.len() - i > 1 && short_unescape_of(b[i + 1]) != 0 {
                out.push(short_unescape_of(b[i + 1]));
                step = 2;
            } else if b.len() - i > 5 && b[i + 1] == 'u' as u8 && b[i + 2] == ZERO && b[i + 3]
                == ZERO && (b[i + 4] == ZERO || b[i + 4] == ZERO + 1) && ((ZERO <= b[i + 5]
                && b[i + 5] <= '9' as u8) || ('a' as u8 <= b[i + 5] && b[i + 5] <= 'f' as u8)) {
                let h = b[i + 5];
                let low = if h <= '9' as u8 {
                    h - ZERO
                } else {
                    h - 'a' as u8 + 10
                };
                let v = (b[i + 4] - ZERO) * 16 + low;
                if short_escape_of(v) != 0 {
                    return None;
                }
                out.push(v);
                step = 6;
            } else {
                return None;
            }
        } else if c < 0x20 {
            return None;
        } else {
            out.push(c);
            step = 1;
        }
        proof {
            assert(rest.subrange(step as int, rest.len() as int) =~= skip(b@, i + step));
            if step == 1 {
                assert(rest.drop_first() =~= skip(b@, i + step));
            }
            match unescape(skip(b@, i + step)) {
                Some((s, n)) => {
                    assert(prev + (seq![out@.last()] + s) =~= out@ + s);
                },
                None => {},
            }
        }
        i = i + step;
    }
    None
}

fn take_number(b: &[u8], pos: usize) -> (r: Option<(u32, usize)>)
    requires
        pos <= b@.len(),
    ensures
        match parse_number(skip(b@, pos as int)) {
            Some((v, k)) => r == Some((v, (pos + k) as usize)) && pos + k <= b@.len(),
            None => r is None,
        },
{
    let mut i: usize = pos;
    let mut v: u64 = 0;
    let mut over = false;
    assert(b@.subrange(pos as int, pos as int) =~= Seq::<u8>::empty());
    while i < b.len() && ZERO <= b[i] && b[i] <= ZERO + 9
        invariant
            pos <= i <= b@.len(),
            digit_run(skip(b@, pos as int)) == (i - pos) + digit_run(skip(b@, i as int)),
            over ==> digits_value(b@.subrange(pos as int, i as int)) > u32::MAX,
            !over ==> v == digits_value(b@.subrange(pos as int, i as int)) && v <= u32::MAX,
        decreases b@.len() - i,
    {
        let d = b[i] - ZERO;
        proof {
            let ds = b@.subrange(pos as int, i + 1);
            assert(ds.drop_last() =~= b@.subrange(pos as int, i as int));
            assert(digits_value(ds) == digits_value(ds.drop_last()) * 10 + d);
            assert(skip(b@, i as int).drop_first() =~= skip(b@, i + 1));
        }
        if !over {
            v = v * 10 + d as u64;
            if v > 0xFFFF_FFFF {
                over = true;
            }
        }
        i = i + 1;
    }
    let k = i - pos;
    proof {
        assert(skip(b@, pos as int).subrange(0, k as int) =~= b@.subrange(pos as int, i as int));
    }
    if k == 0 || (k > 1 && b[pos] == ZERO) || over {
        None
    } else {
        Some((v as u32, i))
    }
}

fn take_data_bits(b: &[u8], pos: usize) -> (r: Option<(DataBits, usize)>)
    requires
        pos <= b@.len(),
    ensures
        match parse_data_bits(skip(b@, pos as int)) {
            Some(v) => r == Some((v, (pos + data_bits_word(v).len()) as usize)) && pos + data_bits_word(
                v,
            ).len() <= b@.len(),
            None => r is None,
        },
{
    let five: [u8; 4] = ['F' as u8, 'i' as u8, 'v' as u8, 'e' as u8];
    let six: [u8; 3] = ['S' as u8, 'i' as u8, 'x' as u8];
    let seven: [u8; 5] = ['S' as u8, 'e' as u8, 'v' as u8, 'e' as u8, 'n' as u8];
    let eight: [u8; 5] = ['E' as u8, 'i' as u8, 'g' as u8, 'h' as u8, 't' as u8];
    let n = b.len();
    if pos < n && b[pos] == 'F' as u8 && matches_at(b, pos, &five) {
        Some((DataBits::Five, pos + 4))
    } else if n - pos > 1 && b[pos] == 'S' as u8 && b[pos + 1] == 'i' as u8 && matches_at(b, pos, &six) {
        Some((DataBits::Six, pos + 3))
    } else if n - pos > 1 && b[pos] == 'S' as u8 && b[pos + 1] == 'e' as u8 && matches_at(b, pos, &seven) {
        Some((DataBits::Seven, pos + 5))
    } else if pos < n && b[pos] == 'E' as u8 && matches_at(b, pos, &eight) {
        Some((DataBits::Eight, pos + 5))
    } else {
        None
    }
}

fn take_parity(b: &[u8], pos: usize) -> (r: Option<(Parity, usize)>)
    requires
        pos <= b@.len(),
    ensures
        match parse_parity(skip(b@, pos as int)) {
            Some(v) => r == Some((v, (pos + parity_word(v).len()) as usize)) && pos + parity_word(
                v,
            ).len() <= b@.len(),
            None => r is None,
        },
{
    let none: [u8; 4] = ['N' as u8, 'o' as u8, 'n' as u8, 'e' as u8];
    let odd: [u8; 3] = ['O' as u8, 'd' as u8, 'd' as u8];
    let even: [u8; 4] = ['E' as u8, 'v' as u8, 'e' as u8, 'n' as u8];
    let n = b.len();
    if pos < n && b[pos] == 'N' as u8 && matches_at(b, pos, &none) {
        Some((Parity::NoParity, pos + 4))
    } else if pos < n && b[pos] == 'O' as u8 && matches_at(b, pos, &odd) {
        Some((Parity::Odd, pos + 3))
    } else if pos < n && b[pos] == 'E' as u8 && matches_at(b, pos, &even) {
        Some((Parity::Even, pos + 4))
    } else {
        None
    }
}

fn take_stop_bits(b: &[u8], pos: usize) -> (r: Option<(StopBits, usize)>)
    requires
        pos <= b@.len(),
    ensures
        match parse_stop_bits(skip(b@, pos as int)) {
            Some(v) => r == Some((v, (pos + stop_bits_word(v).len()) as usize)) && pos + stop_bits_word(
                v,
            ).len() <= b@.len(),
            None => r is None,
        },
{
    let one: [u8; 3] = ['O' as u8, 'n' as u8, 'e' as u8];
    let two: [u8; 3] = ['T' as u8, 'w' as u8, 'o' as u8];
    let n = b.len();
    if pos < n && b[pos] == 'O' as u8 && matches_at(b, pos, &one) {
        Some((StopBits::One, pos + 3))
    } else if pos < n && b[pos] == 'T' as u8 && matches_at(b, pos, &two) {
        Some((StopBits::Two, pos + 3))
    } else {
        None
    }
}

fn take_flow_control(b: &[u8], pos: usize) -> (r: Option<(FlowControl, usize)>)
    requires
        pos <= b@.len(),
    ensures
        match parse_flow_control(skip(b@, pos as int)) {
            Some(v) => r == Some((v, (pos + flow_control_word(v).len()) as usize)) && pos + flow_control_word(
                v,
            ).len() <= b@.len(),
            None => r is None,
        },
{
    let none: [u8; 4] = ['N' as u8, 'o' as u8, 'n' as u8, 'e' as u8];
    let software: [u8; 8] = ['S' as u8, 'o' as u8, 'f' as u8, 't' as u8, 'w' as u8, 'a' as u8, 'r' as u8, 'e' as u8];
    let hardware: [u8; 8] = ['H' as u8, 'a' as u8, 'r' as u8, 'd' as u8, 'w' as u8, 'a' as u8, 'r' as u8, 'e' as u8];
    let n = b.len();
    if pos < n && b[pos] == 'N' as u8 && matches_at(b, pos, &none) {
        Some((FlowControl::NoFlowControl, pos + 4))
    } else if pos < n && b[pos] == 'S' as u8 && matches_at(b, pos, &software) {
        Some((FlowControl::Software, pos + 8))
    } else if pos < n && b[pos] == 'H' as u8 && matches_at(b, pos, &hardware) {
        Some((FlowControl::Hardware, pos + 8))
    } else {
        None
    }
}

#[verifier::spinoff_prover]
fn read_speed(b: &[u8], pos: usize, name: String) -> (r: Option<SerialPortInfo>)
    requires
        pos <= b@.len(),
    ensures
        match decode_speed(name@, skip(b@, pos as int)) {
            Some(d) => r is Some && r->Some_0@ == d,
            None => r is None,
        },
{
    let ghost t = b@;
    let n = b.len();
    let key_speed: [u8; 10] = ['"' as u8, ',' as u8, '"' as u8, 's' as u8, 'p' as u8, 'e' as u8, 'e' as u8, 'd' as u8, '"' as u8, ':' as u8];
    if !matches_at(b, pos, &key_speed) {
        return None;
    }
    let p = pos + 10;
    assert(skip(skip(t, pos as int), 10) =~= skip(t, p as int));
    let (speed, q) = match take_number(b, p) {
        Some(x) => x,
        None => return None,
    };
    if speed == 0 {
        return None;
    }
    assert(skip(skip(t, p as int), (q - p) as int) =~= skip(t, q as int));
    read_data_bits(b, q, name, speed)
}

#[verifier::spinoff_prover]
fn read_data_bits(b: &[u8], pos: usize, name: String, speed: u32) -> (r: Option<SerialPortInfo>)
    requires
        pos <= b@.len(),
    ensures
        match decode_data_bits(name@, speed, skip(b@, pos as int)) {
            Some(d) => r is Some && r->Some_0@ == d,
            None => r is None,
        },
{
    let ghost t = b@;
    let n = b.len();
    let key_data_bits: [u8; 14] = [',' as u8, '"' as u8, 'd' as u8, 'a' as u8, 't' as u8, 'a' as u8, '_' as u8, 'b' as u8, 'i' as u8, 't' as u8, 's' as u8, '"' as u8, ':' as u8, '"' as u8];
    if !matches_at(b, pos, &key_data_bits) {
        return None;
    }
    let p = pos + 14;
    assert(skip(skip(t, pos as int), 14) =~= skip(t, p as int));
    let (data_bits, q) = match take_data_bits(b, p) {
        Some(x) => x,
        None => return None,
    };
    assert(skip(skip(t, p as int), (q - p) as int) =~= skip(t, q as int));
    read_parity(b, q, name, speed, data_bits)
}

#[verifier::spinoff_prover]
fn read_parity(b: &[u8], pos: usize, name: String, speed: u32, data_bits: DataBits) -> (r: Option<
    SerialPortInfo,
>)
    requires
        pos <= b@.len(),
    ensures
        match decode_parity(name@, speed, data_bits, skip(b@, pos as int)) {
            Some(d) => r is Some && r->Some_0@ == d,
            None => r is None,
        },
{
    let ghost t = b@;
    let n = b.len();
    let key_parity: [u8; 12] = ['"' as u8, ',' as u8, '"' as u8, 'p' as u8, 'a' as u8, 'r' as u8, 'i' as u8, 't' as u8, 'y' as u8, '"' as u8, ':' as u8, '"' as u8];
    if !matches_at(b, pos, &key_parity) {
        return None;
    }
    let p = pos + 12;
    assert(skip(skip(t, pos as int), 12) =~= skip(t, p as int));
    let (parity, q) = match take_parity(b, p) {
        Some(x) => x,
        None => return None,
    };
    assert(skip(skip(t, p as int), (q - p) as int) =~= skip(t, q as int));
    read_stop_bits(b, q, name, speed, data_bits, parity)
}

#[verifier::spinoff_prover]
fn read_stop_bits(
    b: &[u8],
    pos: usize,
    name: String,
    speed: u32,
    data_bits: DataBits,
    parity: Parity,
) -> (r: Option<SerialPortInfo>)
    requires
        pos <= b@.len(),
    ensures
        match decode_stop_bits(name@, speed, data_bits, parity, skip(b@, pos as int)) {
            Some(d) => r is Some && r->Some_0@ == d,
            None => r is None,
        },
{
    let ghost t = b@;
    let n = b.len();
    let key_stop_bits: [u8; 15] = ['"' as u8, ',' as u8, '"' as u8, 's' as u8, 't' as u8, 'o' as u8, 'p' as u8, '_' as u8, 'b' as u8, 'i' as u8, 't' as u8, 's' as u8, '"' as u8, ':' as u8, '"' as u8];
    if !matches_at(b, pos, &key_stop_bits) {
        return None;
    }
    let p = pos + 15;
    assert(skip(skip(t, pos as int), 15) =~= skip(t, p as int));
    let (stop_bits, q) = match take_stop_bits(b, p) {
        Some(x) => x,
        None => return None,
    };
    assert(skip(skip(t, p as int), (q - p) as int) =~= skip(t, q as int));
    read_flow_control(b, q, name, speed, data_bits, parity, stop_bits)
}

#[verifier::spinoff_prover]
fn read_flow_control(
    b: &[u8],
    pos: usize,
    name: String,
    speed: u32,
    data_bits: DataBits,
    parity: Parity,
    stop_bits: StopBits,
) -> (r: Option<SerialPortInfo>)
    requires
        pos <= b@.len(),
    ensures
        match decode_flow_control(name@, speed, data_bits, parity, stop_bits, skip(b@, pos as int)) {
            Some(d) => r is Some && r->Some_0@ == d,
            None => r is None,
        },
{
    let ghost t = b@;
    let n = b.len();
    let key_flow_control: [u8; 18] = ['"' as u8, ',' as u8, '"' as u8, 'f' as u8, 'l' as u8, 'o' as u8, 'w' as u8, '_' as u8, 'c' as u8, 'o' as u8, 'n' as u8, 't' as u8, 'r' as u8, 'o' as u8, 'l' as u8, '"' as u8, ':' as u8, '"' as u8];
    let close: [u8; 2] = ['"' as u8, '}' as u8];
    if !matches_at(b, pos, &key_flow_control) {
        return None;
    }
    let p = pos + 18;
    assert(skip(skip(t, pos as int), 18) =~= skip(t, p as int));
    let (flow_control, q) = match take_flow_control(b, p) {
        Some(x) => x,
        None => return None,
    };
    assert(skip(skip(t, p as int), (q - p) as int) =~= skip(t, q as int));
    if !(matches_at(b, q, &close) && b.len() - q == 2) {
        proof {
            if skip(t, q as int) == lit_close() {
                assert(skip(t, q as int).subrange(0, 2) =~= skip(t, q as int));
            }
        }
        return None;
    }
    assert(skip(t, q as int) =~= skip(t, q as int).subrange(0, 2));
    Some(SerialPortInfo { name, speed, data_bits, parity, stop_bits, flow_control })
}

impl SerialPortInfo {
    /// The textual form of this descriptor. Encoding always succeeds.
    pub fn to_json(&self) -> (r: Option<String>)
        ensures
            r is Some,
            encode_utf8(r->Some_0@) == descriptor_text(self@),
    {
        let mut out: Vec<u8> = Vec::new();
        let open_name: [u8; 9] = ['{' as u8, '"' as u8, 'n' as u8, 'a' as u8, 'm' as u8, 'e' as u8, '"' as u8, ':' as u8, '"' as u8];
        push_all(&mut out, &open_name);
        assert(out@ + text_name(self@) =~= descriptor_text(self@)) by {
            reveal(descriptor_text);
        }
        push_escaped(&mut out, self.name.as_str().as_bytes());
        assert(out@ + text_speed_key(self@) =~= descriptor_text(self@)) by {
            reveal(text_name);
        }
        let key_speed: [u8; 10] = ['"' as u8, ',' as u8, '"' as u8, 's' as u8, 'p' as u8, 'e' as u8, 'e' as u8, 'd' as u8, '"' as u8, ':' as u8];
        push_all(&mut out, &key_speed);
        assert(out@ + text_speed(self@) =~= descriptor_text(self@)) by {
            reveal(text_speed_key);
        }
        push_digits(&mut out, self.speed);
        assert(out@ + text_data_bits_key(self@) =~= descriptor_text(self@)) by {
            reveal(text_speed);
        }
        let key_data_bits: [u8; 14] = [',' as u8, '"' as u8, 'd' as u8, 'a' as u8, 't' as u8, 'a' as u8, '_' as u8, 'b' as u8, 'i' as u8, 't' as u8, 's' as u8, '"' as u8, ':' as u8, '"' as u8];
        push_all(&mut out, &key_data_bits);
        assert(out@ + text_data_bits(self@) =~= descriptor_text(self@)) by {
            reveal(text_data_bits_key);
        }
        match self.data_bits {
            DataBits::Five => {
            let five: [u8; 4] = ['F' as u8, 'i' as u8, 'v' as u8, 'e' as u8];
                push_all(&mut out, &five);
            },
            DataBits::Six => {
            let six: [u8; 3] = ['S' as u8, 'i' as u8, 'x' as u8];
                push_all(&mut out, &six);
            },
            DataBits::Seven => {
            let seven: [u8; 5] = ['S' as u8, 'e' as u8, 'v' as u8, 'e' as u8, 'n' as u8];
                push_all(&mut out, &seven);
            },
            DataBits::Eight => {
            let eight: [u8; 5] = ['E' as u8, 'i' as u8, 'g' as u8, 'h' as u8, 't' as u8];
                push_all(&mut out, &eight);
            },
        }
        assert(out@ + text_parity_key(self@) =~= descriptor_text(self@)) by {
            reveal(text_data_bits);
        }
        let key_parity: [u8; 12] = ['"' as u8, ',' as u8, '"' as u8, 'p' as u8, 'a' as u8, 'r' as u8, 'i' as u8, 't' as u8, 'y' as u8, '"' as u8, ':' as u8, '"' as u8];
        push_all(&mut out, &key_parity);
        assert(out@ + text_parity(self@) =~= descriptor_text(self@)) by {
            reveal(text_parity_key);
        }
        match self.parity {
            Parity::NoParity => {
            let none: [u8; 4] = ['N' as u8, 'o' as u8, 'n' as u8, 'e' as u8];
                push_all(&mut out, &none);
            },
            Parity::Odd => {
            let odd: [u8; 3] = ['O' as u8, 'd' as u8, 'd' as u8];
                push_all(&mut out, &odd);
            },
            Parity::Even => {
            let even: [u8; 4] = ['E' as u8, 'v' as u8, 'e' as u8, 'n' as u8];
                push_all(&mut out, &even);
            },
        }
        assert(out@ + text_stop_bits_key(self@) =~= descriptor_text(self@)) by {
            reveal(text_parity);
        }
        let key_stop_bits: [u8; 15] = ['"' as u8, ',' as u8, '"' as u8, 's' as u8, 't' as u8, 'o' as u8, 'p' as u8, '_' as u8, 'b' as u8, 'i' as u8, 't' as u8, 's' as u8, '"' as u8, ':' as u8, '"' as u8];
        push_all(&mut out, &key_stop_bits);
        assert(out@ + text_stop_bits(self@) =~= descriptor_text(self@)) by {
            reveal(text_stop_bits_key);
        }
        match self.stop_bits {
            StopBits::One => {
            let one: [u8; 3] = ['O' as u8, 'n' as u8, 'e' as u8];
                push_all(&mut out, &one);
            },
            StopBits::Two => {
            let two: [u8; 3] = ['T' as u8, 'w' as u8, 'o' as u8];
                push_all(&mut out, &two);
            },
        }
        assert(out@ + text_flow_control_key(self@) =~= descriptor_text(self@)) by {
            reveal(text_stop_bits);
        }
        let key_flow_control: [u8; 18] = ['"' as u8, ',' as u8, '"' as u8, 'f' as u8, 'l' as u8, 'o' as u8, 'w' as u8, '_' as u8, 'c' as u8, 'o' as u8, 'n' as u8, 't' as u8, 'r' as u8, 'o' as u8, 'l' as u8, '"' as u8, ':' as u8, '"' as u8];
        push_all(&mut out, &key_flow_control);
        assert(out@ + text_flow_control(self@) =~= descriptor_text(self@)) by {
            reveal(text_flow_control_key);
        }
        match self.flow_control {
            FlowControl::NoFlowControl => {
            let none: [u8; 4] = ['N' as u8, 'o' as u8, 'n' as u8, 'e' as u8];
                push_all(&mut out, &none);
            },
            FlowControl::Software => {
            let software: [u8; 8] = ['S' as u8, 'o' as u8, 'f' as u8, 't' as u8, 'w' as u8, 'a' as u8, 'r' as u8, 'e' as u8];
                push_all(&mut out, &software);
            },
            FlowControl::Hardware => {
            let hardware: [u8; 8] = ['H' as u8, 'a' as u8, 'r' as u8, 'd' as u8, 'w' as u8, 'a' as u8, 'r' as u8, 'e' as u8];
                push_all(&mut out, &hardware);
            },
        }
        let close: [u8; 2] = ['"' as u8, '}' as u8];
        push_all(&mut out, &close);
        proof {
            lemma_descriptor_text_valid(self@);
            assert(out@ =~= descriptor_text(self@)) by {
                reveal(text_flow_control);
            }
        }
        string_from_utf8(out)
    }

    /// The descriptor that `json` is the textual form of; `None` for any other
    /// text.
    pub fn from_json(json: String) -> (r: Option<SerialPortInfo>)
        ensures
            match decode_descriptor(encode_utf8(json@)) {
                Some(d) => r is Some && r->Some_0@ == d,
                None => r is None,
            },
            r is Some ==> descriptor_text(r->Some_0@) == encode_utf8(json@),
            r is Some ==> r->Some_0.speed > 0,
    {
        broadcast use encode_utf8_decode_utf8;

        proof {
            lemma_decode_only_texts(encode_utf8(json@));
        }

        let b = json.as_str().as_bytes();
        let ghost t = b@;
        assert(t == encode_utf8(json@));
        assert(skip(t, 0) =~= t);
        let open_name: [u8; 9] = ['{' as u8, '"' as u8, 'n' as u8, 'a' as u8, 'm' as u8, 'e' as u8, '"' as u8, ':' as u8, '"' as u8];
        if !matches_at(b, 0, &open_name) {
            return None;
        }
        let pos: usize = 9;
        let (name_bytes, pos1) = match take_name(b, pos) {
            Some(x) => x,
            None => return None,
        };
        let ghost nb = name_bytes@;
        assert(skip(skip(t, 9), (pos1 - 9) as int) =~= skip(t, pos1 as int));
        let name = match string_from_utf8(name_bytes) {
            Some(s) => s,
            None => return None,
        };
        assert(name@ == decode_utf8(nb));
        read_speed(b, pos1, name)
    }
}

} // verus!
