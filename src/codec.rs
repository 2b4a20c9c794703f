//! The log record codec.
//!
//! A record is written as a JSON-shaped object with no whitespace:
//! `{"Set":{"key":"k","value":"v"}}` or `{"Rm":{"key":"k"}}`. Inside the
//! quotes, the UTF-8 bytes of the string appear as they are, except that `"`
//! and `\` are escaped as `\"` and `\\`, and control bytes as JSON escapes
//! (`\n`, `\t`, ..., else `\u00XX`). Reading accepts the JSON escapes that
//! stand for one ASCII byte. The encoding of one record is never a proper
//! prefix of the encoding of another, so records can be read one after the
//! other from concatenated bytes.
use vstd::prelude::*;
use vstd::utf8::*;

verus! {

broadcast use {encode_utf8_valid_utf8, encode_utf8_decode_utf8};

pub const QUOTE: u8 = 34;

pub const BACKSLASH: u8 = 92;

/// The bytes of `{"Set":{"key":`.
pub open spec fn set_head() -> Seq<u8> {
    seq![123u8, 34, 83, 101, 116, 34, 58, 123, 34, 107, 101, 121, 34, 58]
}

/// The bytes of `{"Rm":{"key":`.
pub open spec fn rm_head() -> Seq<u8> {
    seq![123u8, 34, 82, 109, 34, 58, 123, 34, 107, 101, 121, 34, 58]
}

/// The bytes of `,"value":`.
pub open spec fn value_sep() -> Seq<u8> {
    seq![44u8, 34, 118, 97, 108, 117, 101, 34, 58]
}

/// The bytes of `}}`.
pub open spec fn close() -> Seq<u8> {
    seq![125u8, 125]
}

/// A record of the log, as the engine uses it.
pub enum Command {
    /// The key now maps to the value.
    Put { key: String, value: String },
    /// The key is no longer stored.
    Rm { key: String },
}

/// The mathematical value of a [`Command`].
pub enum RecordView {
    Put { key: Seq<char>, value: Seq<char> },
    Rm { key: Seq<char> },
}

impl View for Command {
    type V = RecordView;

    open spec fn view(&self) -> RecordView {
        match self {
            Command::Put { key, value } => RecordView::Put { key: key@, value: value@ },
            Command::Rm { key } => RecordView::Rm { key: key@ },
        }
    }
}

/// The lower-case hexadecimal digit of `n`, for `n < 16`.
pub open spec fn hex_digit(n: nat) -> u8 {
    if n < 10 {
        (48 + n) as u8
    } else {
        (87 + n) as u8
    }
}

/// The value of a hexadecimal digit, in either case.
pub open spec fn hex_value(c: u8) -> Option<nat> {
    if 48 <= c <= 57 {
        Some((c - 48) as nat)
    } else if 97 <= c <= 102 {
        Some((c - 87) as nat)
    } else if 65 <= c <= 70 {
        Some((c - 55) as nat)
    } else {
        None
    }
}

/// The letter that follows `\` in the two-byte escape of `b`, if `b` has one.
pub open spec fn short_escape(b: u8) -> Option<u8> {
    if b == QUOTE {
        Some(QUOTE)
    } else if b == BACKSLASH {
        Some(BACKSLASH)
    } else if b == 8 {
        Some(98u8)
    } else if b == 12 {
        Some(102u8)
    } else if b == 10 {
        Some(110u8)
    } else if b == 13 {
        Some(114u8)
    } else if b == 9 {
        Some(116u8)
    } else {
        None
    }
}

/// The byte that `\c` stands for, for a letter `c` other than `u`.
pub open spec fn unescape_letter(c: u8) -> Option<u8> {
    if c == QUOTE {
        Some(QUOTE)
    } else if c == BACKSLASH {
        Some(BACKSLASH)
    } else if c == 47 {
        Some(47u8)
    } else if c == 98 {
        Some(8u8)
    } else if c == 102 {
        Some(12u8)
    } else if c == 110 {
        Some(10u8)
    } else if c == 114 {
        Some(13u8)
    } else if c == 116 {
        Some(9u8)
    } else {
        None
    }
}

/// The bytes that stand for one byte inside quotes.
pub open spec fn esc_byte(b: u8) -> Seq<u8> {
    match short_escape(b) {
        Some(c) => seq![BACKSLASH, c],
        None => if b < 32 {
            seq![BACKSLASH, 117u8, 48u8, 48u8, hex_digit((b / 16) as nat), hex_digit((b % 16) as nat)]
        } else {
            seq![b]
        },
    }
}

/// The ASCII byte that the escape `\uXXXX` at `i` stands for.
pub open spec fn unicode_escape_at(b: Seq<u8>, i: int) -> Option<u8> {
    if 0 <= i && i + 6 <= b.len() {
        match (hex_value(b[i + 2]), hex_value(b[i + 3]), hex_value(b[i + 4]), hex_value(b[i + 5])) {
            (Some(h1), Some(h2), Some(h3), Some(h4)) => {
                let v = h1 * 4096 + h2 * 256 + h3 * 16 + h4;
                if v < 128 {
                    Some(v as u8)
                } else {
                    None
                }
            },
            _ => None,
        }
    } else {
        None
    }
}

/// The bytes that stand for `s` inside quotes.
pub open spec fn escape(s: Seq<u8>) -> Seq<u8>
    decreases s.len(),
{
    if s.len() == 0 {
        Seq::empty()
    } else {
        esc_byte(s[0]) + escape(s.drop_first())
    }
}

/// A string written between quotes.
pub open spec fn quoted(s: Seq<char>) -> Seq<u8> {
    seq![QUOTE] + escape(encode_utf8(s)) + seq![QUOTE]
}

/// The bytes that a record is written as.
pub open spec fn encode_record(r: RecordView) -> Seq<u8> {
    match r {
        RecordView::Put { key, value } => set_head() + quoted(key) + value_sep() + quoted(value)
            + close(),
        RecordView::Rm { key } => rm_head() + quoted(key) + close(),
    }
}

/// Whether the bytes `lit` stand in `b` from position `i`.
pub open spec fn lit_at(b: Seq<u8>, i: int, lit: Seq<u8>) -> bool {
    0 <= i && i + lit.len() <= b.len() && b.subrange(i, i + lit.len()) == lit
}

/// Reads the inside of a quoted string that starts at `i`, up to and
/// including its closing quote: the bytes it stands for, and the position
/// after the closing quote.
pub open spec fn unquote_body(b: Seq<u8>, i: int) -> Option<(Seq<u8>, int)>
    decreases b.len() - i,
{
    if i < 0 || i >= b.len() {
        None
    } else if b[i] == QUOTE {
        Some((Seq::empty(), i + 1))
    } else if b[i] == BACKSLASH {
        if i + 1 >= b.len() {
            None
        } else if b[i + 1] == 117 {
            if i + 6 <= b.len() {
                match unicode_escape_at(b, i) {
                    Some(x) => match unquote_body(b, i + 6) {
                        Some((s, e)) => Some((seq![x] + s, e)),
                        None => None,
                    },
                    None => None,
                }
            } else {
                None
            }
        } else {
            match unescape_letter(b[i + 1]) {
                Some(x) => match unquote_body(b, i + 2) {
                    Some((s, e)) => Some((seq![x] + s, e)),
                    None => None,
                },
                None => None,
            }
        }
    } else if b[i] < 32 {
        None
    } else {
        match unquote_body(b, i + 1) {
            Some((s, e)) => Some((seq![b[i]] + s, e)),
            None => None,
        }
    }
}

/// Reads a quoted UTF-8 string that starts at `i`.
pub open spec fn string_at(b: Seq<u8>, i: int) -> Option<(Seq<char>, int)> {
    if 0 <= i < b.len() && b[i] == QUOTE {
        match unquote_body(b, i + 1) {
            Some((s, e)) => if valid_utf8(s) {
                Some((decode_utf8(s), e))
            } else {
                None
            },
            None => None,
        }
    } else {
        None
    }
}

/// Reads the record that starts at `i`: the record, and the position after it.
#[verifier::opaque]
pub open spec fn parse_record_at(b: Seq<u8>, i: int) -> Option<(RecordView, int)> {
    if lit_at(b, i, set_head()) {
        match string_at(b, i + set_head().len()) {
            Some((k, e1)) => if lit_at(b, e1, value_sep()) {
                match string_at(b, e1 + value_sep().len()) {
                    Some((v, e2)) => if lit_at(b, e2, close()) {
                        Some((RecordView::Put { key: k, value: v }, e2 + close().len()))
                    } else {
                        None
                    },
                    None => None,
                }
            } else {
                None
            },
            None => None,
        }
    } else if lit_at(b, i, rm_head()) {
        match string_at(b, i + rm_head().len()) {
            Some((k, e1)) => if lit_at(b, e1, close()) {
                Some((RecordView::Rm { key: k }, e1 + close().len()))
            } else {
                None
            },
            None => None,
        }
    } else {
        None
    }
}

/// The records read one after the other from position `i`, up to the end of
/// `b` or to the first bytes that are not a record.
pub open spec fn parse_log_from(b: Seq<u8>, i: int) -> Seq<RecordView>
    decreases b.len() - i,
{
    if 0 <= i < b.len() {
        match parse_record_at(b, i) {
            Some((r, e)) => if i < e <= b.len() {
                seq![r] + parse_log_from(b, e)
            } else {
                Seq::empty()
            },
            None => Seq::empty(),
        }
    } else {
        Seq::empty()
    }
}

/// The records read from the start of `b`.
pub open spec fn parse_log(b: Seq<u8>) -> Seq<RecordView> {
    parse_log_from(b, 0)
}

/// The log that holds the records `rs` in order.
pub open spec fn log_of(rs: Seq<RecordView>) -> Seq<u8>
    decreases rs.len(),
{
    if rs.len() == 0 {
        Seq::empty()
    } else {
        log_of(rs.drop_last()) + encode_record(rs.last())
    }
}

pub proof fn lemma_escape_concat(a: Seq<u8>, b: Seq<u8>)
    ensures
        escape(a + b) == escape(a) + escape(b),
    decreases a.len(),
{
    if a.len() == 0 {
        assert(a + b =~= b);
        assert(escape(a) + escape(b) =~= escape(b));
    } else {
        assert((a + b).drop_first() =~= a.drop_first() + b);
        lemma_escape_concat(a.drop_first(), b);
        assert(escape(a + b) =~= escape(a) + escape(b));
    }
}

proof fn lemma_escape_push(s: Seq<u8>, j: int)
    requires
        0 <= j < s.len(),
    ensures
        escape(s.take(j + 1)) == escape(s.take(j)) + esc_byte(s[j]),
{
    assert(s.take(j + 1) =~= s.take(j) + seq![s[j]]);
    lemma_escape_concat(s.take(j), seq![s[j]]);
    assert(seq![s[j]].drop_first() =~= Seq::<u8>::empty());
    assert(escape(seq![s[j]].drop_first()) == Seq::<u8>::empty());
    assert(escape(seq![s[j]]) =~= esc_byte(s[j]));
}

/// The inside of a quoted string is read back as the bytes it was written from.
proof fn lemma_unquote_escape(b: Seq<u8>, i: int, s: Seq<u8>)
    requires
        0 <= i,
        i + escape(s).len() + 1 <= b.len(),
        b.subrange(i, i + escape(s).len() + 1) == escape(s) + seq![QUOTE],
    ensures
        unquote_body(b, i) == Some((s, i + escape(s).len() + 1)),
    decreases s.len(),
{
    let e = escape(s) + seq![QUOTE];
    assert(forall|j: int| 0 <= j < e.len() ==> b[i + j] == #[trigger] e[j]) by {
        assert forall|j: int| 0 <= j < e.len() implies b[i + j] == #[trigger] e[j] by {
            assert(b.subrange(i, i + e.len())[j] == b[i + j]);
        }
    }
    if s.len() == 0 {
        assert(e[0] == QUOTE);
        assert(s =~= Seq::<u8>::empty());
    } else {
        let x = s[0];
        let t = s.drop_first();
        let n = esc_byte(x).len() as int;
        assert(escape(s) == esc_byte(x) + escape(t));
        assert(e =~= esc_byte(x) + (escape(t) + seq![QUOTE]));
        assert(b.subrange(i + n, i + n + escape(t).len() + 1) =~= escape(t) + seq![QUOTE]) by {
            assert forall|j: int| 0 <= j < escape(t).len() + 1 implies b.subrange(
                i + n,
                i + n + escape(t).len() + 1,
            )[j] == (escape(t) + seq![QUOTE])[j] by {
                assert(e[n + j] == (escape(t) + seq![QUOTE])[j]);
            }
        }
        lemma_unquote_escape(b, i + n, t);
        assert(seq![x] + t =~= s);
        match short_escape(x) {
            Some(c) => {
                assert(e[0] == BACKSLASH);
                assert(e[1] == c);
                assert(unescape_letter(c) == Some(x));
            },
            None => {
                if x < 32 {
                    assert(e[0] == BACKSLASH);
                    assert(e[1] == 117);
                    assert(e[2] == 48 && e[3] == 48);
                    let d1 = (x / 16) as nat;
                    let d2 = (x % 16) as nat;
                    assert(e[4] == hex_digit(d1) && e[5] == hex_digit(d2));
                    assert(hex_value(hex_digit(d1)) == Some(d1));
                    assert(hex_value(hex_digit(d2)) == Some(d2));
                    assert(hex_value(48u8) == Some(0nat));
                    assert(d1 * 16 + d2 == x);
                    assert(unicode_escape_at(b, i) == Some(x));
                } else {
                    assert(e[0] == x);
                }
            },
        }
    }
}

/// A quoted string is read back as the string it was written from.
proof fn lemma_string_at_quoted(b: Seq<u8>, i: int, k: Seq<char>)
    requires
        0 <= i,
        i + quoted(k).len() <= b.len(),
        b.subrange(i, i + quoted(k).len()) == quoted(k),
    ensures
        string_at(b, i) == Some((k, i + quoted(k).len())),
{
    let s = encode_utf8(k);
    let q = quoted(k);
    assert(b[i] == b.subrange(i, i + q.len())[0]);
    assert(b.subrange(i + 1, i + 1 + escape(s).len() + 1) =~= escape(s) + seq![QUOTE]) by {
        assert forall|j: int| 0 <= j < escape(s).len() + 1 implies b.subrange(
            i + 1,
            i + 1 + escape(s).len() + 1,
        )[j] == (escape(s) + seq![QUOTE])[j] by {
            assert(b.subrange(i, i + q.len())[1 + j] == b[i + 1 + j]);
        }
    }
    lemma_unquote_escape(b, i + 1, s);
}

proof fn lemma_subrange_of_concat(b: Seq<u8>, i: int, x: Seq<u8>, y: Seq<u8>)
    requires
        0 <= i,
        i + x.len() + y.len() <= b.len(),
        b.subrange(i, i + x.len() + y.len()) == x + y,
    ensures
        b.subrange(i, i + x.len()) == x,
        b.subrange(i + x.len(), i + x.len() + y.len()) == y,
{
    assert(b.subrange(i, i + x.len()) =~= (x + y).subrange(0, x.len() as int));
    assert(b.subrange(i + x.len(), i + x.len() + y.len()) =~= (x + y).subrange(
        x.len() as int,
        (x.len() + y.len()) as int,
    ));
}

/// An encoded record is read back as itself, whatever follows it.
pub proof fn lemma_parse_encoded(b: Seq<u8>, i: int, r: RecordView)
    requires
        0 <= i,
        i + encode_record(r).len() <= b.len(),
        b.subrange(i, i + encode_record(r).len()) == encode_record(r),
    ensures
        parse_record_at(b, i) == Some((r, i + encode_record(r).len())),
        encode_record(r).len() > 0,
{
    reveal(parse_record_at);
    match r {
        RecordView::Put { key, value } => {
            let h = set_head();
            let qk = quoted(key);
            let qv = quoted(value);
            let key_at = i + h.len();
            let value_at = key_at + qk.len() + value_sep().len();
            lemma_subrange_of_concat(b, i, h + qk + value_sep() + qv, close());
            lemma_subrange_of_concat(b, i, h + qk + value_sep(), qv);
            lemma_subrange_of_concat(b, i, h + qk, value_sep());
            lemma_subrange_of_concat(b, i, h, qk);
            lemma_string_at_quoted(b, key_at, key);
            lemma_string_at_quoted(b, value_at, value);
            assert(h[0] != rm_head()[0] || h[2] != rm_head()[2]);
        },
        RecordView::Rm { key } => {
            let h = rm_head();
            let qk = quoted(key);
            lemma_subrange_of_concat(b, i, h + qk, close());
            lemma_subrange_of_concat(b, i, h, qk);
            lemma_string_at_quoted(b, i + h.len(), key);
            assert(!lit_at(b, i, set_head())) by {
                if lit_at(b, i, set_head()) {
                    assert(b.subrange(i, i + 14)[2] == b[i + 2]);
                    assert(b.subrange(i, i + 13)[2] == b[i + 2]);
                }
            }
        },
    }
}

pub proof fn lemma_subrange_tail(b: Seq<u8>, q: int, x: Seq<u8>, y: Seq<u8>)
    requires
        q == x.len() + y.len(),
        q <= b.len(),
        b.subrange(0, q) == x + y,
    ensures
        b.subrange(x.len() as int, q) == y,
{
    assert forall|t: int| 0 <= t < y.len() implies b.subrange(x.len() as int, q)[t] == y[t] by {
        assert(b.subrange(0, q)[x.len() + t] == b[x.len() + t]);
        assert((x + y)[x.len() + t] == y[t]);
    }
    assert(b.subrange(x.len() as int, q) =~= y);
}

/// A log made of encoded records is read back as those records.
pub proof fn lemma_parse_log_of(rs: Seq<RecordView>)
    ensures
        parse_log(log_of(rs)) == rs,
{
    lemma_parse_log_of_from(rs, 0);
    assert(rs.skip(0) =~= rs);
}

pub proof fn lemma_log_prefix(rs: Seq<RecordView>, j: int)
    requires
        0 <= j <= rs.len(),
    ensures
        log_of(rs.take(j)).len() <= log_of(rs).len(),
        log_of(rs).subrange(0, log_of(rs.take(j)).len() as int) == log_of(rs.take(j)),
    decreases rs.len(),
{
    if j == rs.len() {
        assert(rs.take(j) =~= rs);
        assert(log_of(rs).subrange(0, log_of(rs).len() as int) =~= log_of(rs));
    } else {
        let d = rs.drop_last();
        assert(d.take(j) =~= rs.take(j));
        lemma_log_prefix(d, j);
        assert(log_of(rs) == log_of(d) + encode_record(rs.last()));
        assert(log_of(rs).subrange(0, log_of(rs.take(j)).len() as int) =~= log_of(d).subrange(
            0,
            log_of(d.take(j)).len() as int,
        ));
    }
}

proof fn lemma_parse_log_of_from(rs: Seq<RecordView>, j: int)
    requires
        0 <= j <= rs.len(),
    ensures
        parse_log_from(log_of(rs), log_of(rs.take(j)).len() as int) == rs.skip(j),
    decreases rs.len() - j,
{
    let b = log_of(rs);
    let p = log_of(rs.take(j)).len() as int;
    if j == rs.len() {
        assert(rs.take(j) =~= rs);
        assert(rs.skip(j) =~= Seq::<RecordView>::empty());
    } else {
        let r = rs[j];
        lemma_log_prefix(rs, j + 1);
        assert(rs.take(j + 1).drop_last() =~= rs.take(j));
        let pre = log_of(rs.take(j + 1));
        assert(pre == log_of(rs.take(j)) + encode_record(r));
        let q = pre.len() as int;
        lemma_subrange_tail(b, q, log_of(rs.take(j)), encode_record(r));
        lemma_parse_encoded(b, p, r);
        lemma_parse_log_of_from(rs, j + 1);
        assert(seq![r] + rs.skip(j + 1) =~= rs.skip(j));
    }
}

fn hex_digit_exec(n: u8) -> (r: u8)
    requires
        n < 16,
    ensures
        r == hex_digit(n as nat),
{
    if n < 10 {
        48 + n
    } else {
        87 + n
    }
}

/// Appends the bytes that stand for `s` inside quotes.
fn push_escaped(out: &mut Vec<u8>, s: &[u8])
    ensures
        final(out)@ == old(out)@ + escape(s@),
{
    let n = s.len();
    let mut j: usize = 0;
    assert(s@.take(0) =~= Seq::<u8>::empty());
    while j < n
        invariant
            n == s@.len(),
            j <= n,
            out@ == old(out)@ + escape(s@.take(j as int)),
        decreases n - j,
    {
        let x = s[j];
        proof {
            lemma_escape_push(s@, j as int);
        }
        if x == QUOTE {
            out.push(BACKSLASH);
            out.push(QUOTE);
        } else if x == BACKSLASH {
            out.push(BACKSLASH);
            out.push(BACKSLASH);
        } else if x == 8 {
            out.push(BACKSLASH);
            out.push(98);
        } else if x == 12 {
            out.push(BACKSLASH);
            out.push(102);
        } else if x == 10 {
            out.push(BACKSLASH);
            out.push(110);
        } else if x == 13 {
            out.push(BACKSLASH);
            out.push(114);
        } else if x == 9 {
            out.push(BACKSLASH);
            out.push(116);
        } else if x < 32 {
            out.push(BACKSLASH);
            out.push(117);
            out.push(48);
            out.push(48);
            out.push(hex_digit_exec(x / 16));
            out.push(hex_digit_exec(x % 16));
        } else {
            out.push(x);
        }
        assert(out@ =~= old(out)@ + escape(s@.take(j + 1)));
        j = j + 1;
    }
    assert(s@.take(n as int) =~= s@);
}

/// Appends a string between quotes.
fn push_quoted(out: &mut Vec<u8>, s: &String)
    ensures
        final(out)@ == old(out)@ + quoted(s@),
{
    out.push(QUOTE);
    push_escaped(out, s.as_str().as_bytes());
    out.push(QUOTE);
    assert(final(out)@ =~= old(out)@ + quoted(s@));
}

fn push_all(out: &mut Vec<u8>, lit: Vec<u8>)
    ensures
        final(out)@ == old(out)@ + lit@,
{
    let mut lit = lit;
    out.append(&mut lit);
}

/// The bytes that `cmd` is written as in the log.
pub fn encode(cmd: &Command) -> (r: Vec<u8>)
    ensures
        r@ == encode_record(cmd@),
{
    let mut out: Vec<u8> = Vec::new();
    match cmd {
        Command::Put { key, value } => {
            push_all(&mut out, vec![123u8, 34, 83, 101, 116, 34, 58, 123, 34, 107, 101, 121, 34, 58]);
            push_quoted(&mut out, key);
            push_all(&mut out, vec![44u8, 34, 118, 97, 108, 117, 101, 34, 58]);
            push_quoted(&mut out, value);
        },
        Command::Rm { key } => {
            push_all(&mut out, vec![123u8, 34, 82, 109, 34, 58, 123, 34, 107, 101, 121, 34, 58]);
            push_quoted(&mut out, key);
        },
    }
    push_all(&mut out, vec![125u8, 125]);
    assert(out@ =~= encode_record(cmd@));
    out
}

/// Whether the bytes `lit` stand in `b` from position `i`.
fn lit_at_exec(b: &Vec<u8>, i: usize, lit: Vec<u8>) -> (r: bool)
    ensures
        r == lit_at(b@, i as int, lit@),
{
    let n = lit.len();
    if n > b.len() || i > b.len() - n {
        return false;
    }
    let blen = b.len();
    let mut j: usize = 0;
    while j < n
        invariant
            n == lit@.len(),
            blen == b@.len(),
            i + n <= b@.len(),
            j <= n,
            forall|t: int| 0 <= t < j ==> b@[i + t] == lit@[t],
        decreases n - j,
    {
        if b[i + j] != lit[j] {
            assert(b@.subrange(i as int, i + n)[j as int] != lit@[j as int]);
            return false;
        }
        j = j + 1;
    }
    assert(b@.subrange(i as int, i + n) =~= lit@);
    true
}

fn unescape_letter_exec(c: u8) -> (r: Option<u8>)
    ensures
        r == unescape_letter(c),
{
    if c == QUOTE {
        Some(QUOTE)
    } else if c == BACKSLASH {
        Some(BACKSLASH)
    } else if c == 47 {
        Some(47)
    } else if c == 98 {
        Some(8)
    } else if c == 102 {
        Some(12)
    } else if c == 110 {
        Some(10)
    } else if c == 114 {
        Some(13)
    } else if c == 116 {
        Some(9)
    } else {
        None
    }
}

fn hex_value_exec(c: u8) -> (r: Option<u8>)
    ensures
        match hex_value(c) {
            Some(v) => r == Some(v as u8) && v < 16,
            None => r is None,
        },
{
    if 48 <= c && c <= 57 {
        Some(c - 48)
    } else if 97 <= c && c <= 102 {
        Some(c - 87)
    } else if 65 <= c && c <= 70 {
        Some(c - 55)
    } else {
        None
    }
}

/// Reads the escape `\uXXXX` that starts at `i`.
fn unicode_escape_exec(b: &Vec<u8>, i: usize) -> (r: Option<u8>)
    requires
        i + 6 <= b@.len(),
    ensures
        r == unicode_escape_at(b@, i as int),
{
    let blen = b.len();
    let h1 = match hex_value_exec(b[i + 2]) {
        Some(h) => h,
        None => return None,
    };
    let h2 = match hex_value_exec(b[i + 3]) {
        Some(h) => h,
        None => return None,
    };
    let h3 = match hex_value_exec(b[i + 4]) {
        Some(h) => h,
        None => return None,
    };
    let h4 = match hex_value_exec(b[i + 5]) {
        Some(h) => h,
        None => return None,
    };
    if h1 == 0 && h2 == 0 && h3 < 8 {
        Some(h3 * 16 + h4)
    } else {
        None
    }
}

/// Reads the inside of a quoted string that starts at `i`.
fn unquote_body_exec(b: &Vec<u8>, i: usize) -> (r: Option<(Vec<u8>, usize)>)
    ensures
        match r {
            Some((s, e)) => unquote_body(b@, i as int) == Some((s@, e as int)),
            None => unquote_body(b@, i as int) is None,
        },
{
    let n = b.len();
    let mut out: Vec<u8> = Vec::new();
    let mut j: usize = i;
    while j < n
        invariant
            n == b@.len(),
            i <= j,
            unquote_body(b@, i as int) == match unquote_body(b@, j as int) {
                Some((s, e)) => Some((out@ + s, e)),
                None => None,
            },
        decreases n - j,
    {
        let x = b[j];
        if x == QUOTE {
            assert(out@ + Seq::<u8>::empty() =~= out@);
            return Some((out, j + 1));
        } else if x == BACKSLASH {
            if j + 1 >= n {
                return None;
            }
            let c = b[j + 1];
            let (y, step) = if c == 117 {
                if n - j < 6 {
                    return None;
                }
                match unicode_escape_exec(b, j) {
                    Some(y) => (y, 6usize),
                    None => return None,
                }
            } else {
                match unescape_letter_exec(c) {
                    Some(y) => (y, 2usize),
                    None => return None,
                }
            };
            proof {
                let old_out = out@;
                assert forall|s: Seq<u8>| old_out + (seq![y] + s) =~= old_out.push(y) + s by {}
            }
            out.push(y);
            j = j + step;
        } else if x < 32 {
            return None;
        } else {
            proof {
                let old_out = out@;
                assert forall|s: Seq<u8>| old_out + (seq![x] + s) =~= old_out.push(x) + s by {}
            }
            out.push(x);
            j = j + 1;
        }
    }
    None
}

/// Whether `a` and `b` hold the same characters.
pub(crate) fn str_eq(a: &str, b: &str) -> (r: bool)
    ensures
        r == (a@ == b@),
{
    let x = a.to_string();
    let y = b.to_string();
    x == y
}

/// Relies on `String::from_utf8`: it succeeds exactly on valid UTF-8, and the
/// string then holds those bytes.
#[verifier::external_body]
pub(crate) fn string_from_utf8(v: Vec<u8>) -> (r: Option<String>)
    ensures
        r is Some <==> valid_utf8(v@),
        r matches Some(s) ==> encode_utf8(s@) == v@,
{
    String::from_utf8(v).ok()
}

proof fn lemma_unquote_advances(b: Seq<u8>, i: int)
    ensures
        unquote_body(b, i) matches Some((s, e)) ==> i < e <= b.len(),
    decreases b.len() - i,
{
    if 0 <= i < b.len() && b[i] != QUOTE {
        if b[i] == BACKSLASH {
            if i + 1 < b.len() {
                lemma_unquote_advances(b, i + 2);
                if i + 6 <= b.len() {
                    lemma_unquote_advances(b, i + 6);
                }
            }
        } else {
            lemma_unquote_advances(b, i + 1);
        }
    }
}

/// Reads a quoted UTF-8 string that starts at `i`.
fn string_at_exec(b: &Vec<u8>, i: usize) -> (r: Option<(String, usize)>)
    ensures
        match r {
            Some((s, e)) => string_at(b@, i as int) == Some((s@, e as int)) && i < e <= b@.len(),
            None => string_at(b@, i as int) is None,
        },
{
    proof {
        lemma_unquote_advances(b@, i + 1);
    }
    if i >= b.len() || b[i] != QUOTE {
        return None;
    }
    match unquote_body_exec(b, i + 1) {
        Some((bytes, e)) => {
            let ghost raw = bytes@;
            match string_from_utf8(bytes) {
                Some(s) => {
                    proof {
                        decode_utf8_encode_utf8(raw);
                    }
                    Some((s, e))
                },
                None => None,
            }
        },
        None => None,
    }
}

/// Reads the record that starts at position `i` of `b`, and the position
/// after it.
pub fn decode_at(b: &Vec<u8>, i: usize) -> (r: Option<(Command, usize)>)
    ensures
        match r {
            Some((c, e)) => parse_record_at(b@, i as int) == Some((c@, e as int)) && i < e
                <= b@.len(),
            None => parse_record_at(b@, i as int) is None,
        },
{
    reveal(parse_record_at);
    let blen = b.len();
    if lit_at_exec(b, i, vec![123u8, 34, 83, 101, 116, 34, 58, 123, 34, 107, 101, 121, 34, 58]) {
        assert(set_head().len() == 14);
        let (key, e1) = match string_at_exec(b, i + 14) {
            Some(p) => p,
            None => return None,
        };
        if !lit_at_exec(b, e1, vec![44u8, 34, 118, 97, 108, 117, 101, 34, 58]) {
            return None;
        }
        assert(value_sep().len() == 9);
        let (value, e2) = match string_at_exec(b, e1 + 9) {
            Some(p) => p,
            None => return None,
        };
        if !lit_at_exec(b, e2, vec![125u8, 125]) {
            return None;
        }
        Some((Command::Put { key, value }, e2 + 2))
    } else if lit_at_exec(b, i, vec![123u8, 34, 82, 109, 34, 58, 123, 34, 107, 101, 121, 34, 58]) {
        assert(rm_head().len() == 13);
        let (key, e1) = match string_at_exec(b, i + 13) {
            Some(p) => p,
            None => return None,
        };
        if !lit_at_exec(b, e1, vec![125u8, 125]) {
            return None;
        }
        Some((Command::Rm { key }, e1 + 2))
    } else {
        None
    }
}

} // verus!
