//! The line protocol between client and server.
//!
//! A request is a command word followed by its arguments, each on a line of
//! its own ending in `\r\n`. A response starts with a `Success` or `Error`
//! line.
use vstd::prelude::*;
use vstd::string::*;

use crate::codec::str_eq;
use crate::engines::{byte_len, KvsEngine};
use crate::error::{fixed_message, KvsError, Result};

verus! {

/// A request of the protocol.
pub enum Request {
    /// `SET`: store the value under the key.
    Put { key: String, value: String },
    /// `GET`: look the key up.
    Get { key: String },
    /// `RM`: remove the key.
    Rm { key: String },
    /// `SCAN`: list the keys.
    Scan,
}

/// The end of a line.
pub open spec fn crlf() -> Seq<char> {
    seq!['\r', '\n']
}

/// `s` as a line.
pub open spec fn line(s: Seq<char>) -> Seq<char> {
    s + crlf()
}

/// The text that a request is sent as.
pub open spec fn request_text(r: Request) -> Seq<char> {
    match r {
        Request::Put { key, value } => line("SET"@) + line(key@) + line(value@),
        Request::Get { key } => line("GET"@) + line(key@),
        Request::Rm { key } => line("RM"@) + line(key@),
        Request::Scan => line("SCAN"@),
    }
}

/// The pieces `ks` with `sep` between each two.
pub open spec fn join(ks: Seq<Seq<char>>, sep: Seq<char>) -> Seq<char>
    decreases ks.len(),
{
    if ks.len() == 0 {
        Seq::empty()
    } else if ks.len() == 1 {
        ks[0]
    } else {
        join(ks.drop_last(), sep) + sep + ks.last()
    }
}

/// The character of a decimal digit.
pub open spec fn digit_char(d: nat) -> char {
    if d == 0 {
        '0'
    } else if d == 1 {
        '1'
    } else if d == 2 {
        '2'
    } else if d == 3 {
        '3'
    } else if d == 4 {
        '4'
    } else if d == 5 {
        '5'
    } else if d == 6 {
        '6'
    } else if d == 7 {
        '7'
    } else if d == 8 {
        '8'
    } else {
        '9'
    }
}

/// `n` written in decimal.
pub open spec fn decimal(n: nat) -> Seq<char>
    decreases n,
{
    if n < 10 {
        seq![digit_char(n)]
    } else {
        decimal(n / 10) + seq![digit_char(n % 10)]
    }
}

/// The response to a `SET` or `RM` that succeeded.
pub open spec fn success_response() -> Seq<char> {
    line("Success"@)
}

/// The response to a `GET` of a key that holds `v`.
pub open spec fn get_found_response(v: Seq<char>) -> Seq<char> {
    line("Success"@) + line(decimal(byte_len(v))) + line(v)
}

/// The response to a `GET` of a key that holds nothing.
pub open spec fn get_missing_response() -> Seq<char> {
    line("Success"@) + line("-1"@)
}

/// The response to a `SCAN` that found the keys `ks`.
pub open spec fn scan_response(ks: Seq<Seq<char>>) -> Seq<char> {
    line("Success"@) + line(join(ks, crlf()))
}

/// The response to a request that failed with the message `msg`.
pub open spec fn error_response(msg: Seq<char>) -> Seq<char> {
    line("Error"@) + line(msg)
}

/// Whether `t` is the response to a request that failed.
pub open spec fn is_error_response(t: Seq<char>) -> bool {
    exists|msg: Seq<char>| t == error_response(msg)
}

/// The text that `req` is sent as.
pub fn format_request(req: &Request) -> (r: String)
    ensures
        r@ == request_text(*req),
{
    proof {
        reveal_strlit("SET\r\n");
        reveal_strlit("GET\r\n");
        reveal_strlit("RM\r\n");
        reveal_strlit("SCAN\r\n");
        reveal_strlit("\r\n");
        reveal_strlit("SET");
        reveal_strlit("GET");
        reveal_strlit("RM");
        reveal_strlit("SCAN");
    }
    let mut out = String::new();
    match req {
        Request::Put { key, value } => {
            out.append("SET\r\n");
            out.append(key.as_str());
            out.append("\r\n");
            out.append(value.as_str());
            out.append("\r\n");
        },
        Request::Get { key } => {
            out.append("GET\r\n");
            out.append(key.as_str());
            out.append("\r\n");
        },
        Request::Rm { key } => {
            out.append("RM\r\n");
            out.append(key.as_str());
            out.append("\r\n");
        },
        Request::Scan => {
            out.append("SCAN\r\n");
        },
    }
    assert(out@ =~= request_text(*req));
    out
}

fn push_digit(out: &mut String, d: usize)
    requires
        d < 10,
    ensures
        final(out)@ == old(out)@ + seq![digit_char(d as nat)],
{
    proof {
        reveal_strlit("0");
        reveal_strlit("1");
        reveal_strlit("2");
        reveal_strlit("3");
        reveal_strlit("4");
        reveal_strlit("5");
        reveal_strlit("6");
        reveal_strlit("7");
        reveal_strlit("8");
        reveal_strlit("9");
    }
    if d == 0 {
        out.append("0");
    } else if d == 1 {
        out.append("1");
    } else if d == 2 {
        out.append("2");
    } else if d == 3 {
        out.append("3");
    } else if d == 4 {
        out.append("4");
    } else if d == 5 {
        out.append("5");
    } else if d == 6 {
        out.append("6");
    } else if d == 7 {
        out.append("7");
    } else if d == 8 {
        out.append("8");
    } else {
        out.append("9");
    }
    assert(final(out)@ =~= old(out)@ + seq![digit_char(d as nat)]);
}

/// Appends `n` written in decimal.
fn push_decimal(out: &mut String, n: usize)
    ensures
        final(out)@ == old(out)@ + decimal(n as nat),
    decreases n,
{
    if n >= 10 {
        push_decimal(out, n / 10);
    }
    push_digit(out, n % 10);
    assert(final(out)@ =~= old(out)@ + decimal(n as nat));
}

/// The response to a request that failed with `e`.
pub fn error_text(e: &KvsError) -> (r: String)
    ensures
        !e.has_cause() ==> r@ == error_response(crate::error::fixed_message(*e)),
        is_error_response(r@),
{
    proof {
        reveal_strlit("Error\r\n");
        reveal_strlit("Error");
        reveal_strlit("\r\n");
    }
    let msg = e.message();
    let mut out = String::new();
    out.append("Error\r\n");
    out.append(msg.as_str());
    out.append("\r\n");
    assert(out@ =~= error_response(msg@));
    out
}

/// Whether `t` is the response to a `SET` or `RM` whose engine call
/// returned `res`.
pub open spec fn unit_text_matches(res: Result<()>, t: Seq<char>) -> bool {
    match res {
        Ok(()) => t == success_response(),
        Err(e) => is_error_response(t) && (!e.has_cause() ==> t == error_response(
            fixed_message(e),
        )),
    }
}

/// Whether `t` is the response to a `GET` whose engine call returned `res`.
pub open spec fn get_text_matches(res: Result<Option<String>>, t: Seq<char>) -> bool {
    match res {
        Ok(Some(v)) => t == get_found_response(v@),
        Ok(None) => t == get_missing_response(),
        Err(e) => is_error_response(t) && (!e.has_cause() ==> t == error_response(
            fixed_message(e),
        )),
    }
}

/// The response to a `SET` or `RM` whose engine call returned `r`.
pub fn set_response(r: &Result<()>) -> (t: String)
    ensures
        unit_text_matches(*r, t@),
{
    proof {
        reveal_strlit("Success\r\n");
        reveal_strlit("Success");
        reveal_strlit("\r\n");
    }
    match r {
        Ok(()) => {
            let mut out = String::new();
            out.append("Success\r\n");
            assert(out@ =~= success_response());
            out
        },
        Err(e) => error_text(e),
    }
}

/// The response to a `GET` whose engine call returned `r`.
pub fn get_response_text(r: &Result<Option<String>>) -> (t: String)
    ensures
        get_text_matches(*r, t@),
{
    proof {
        reveal_strlit("Success\r\n");
        reveal_strlit("Success");
        reveal_strlit("-1\r\n");
        reveal_strlit("-1");
        reveal_strlit("\r\n");
        reveal_strlit("Success\r\n-1\r\n");
    }
    match r {
        Ok(Some(v)) => {
            let mut out = String::new();
            out.append("Success\r\n");
            push_decimal(&mut out, v.as_str().as_bytes().len());
            out.append("\r\n");
            out.append(v.as_str());
            out.append("\r\n");
            assert(out@ =~= get_found_response(v@));
            out
        },
        Ok(None) => {
            let mut out = String::new();
            out.append("Success\r\n-1\r\n");
            assert(out@ =~= get_missing_response());
            out
        },
        Err(e) => error_text(e),
    }
}

/// The response to a `SCAN` that found `keys`.
pub fn scan_response_text(keys: &Vec<String>) -> (t: String)
    ensures
        t@ == scan_response(keys@.map_values(|s: String| s@)),
{
    proof {
        reveal_strlit("Success\r\n");
        reveal_strlit("Success");
        reveal_strlit("\r\n");
    }
    let mut out = String::new();
    out.append("Success\r\n");
    let ghost ks = keys@.map_values(|s: String| s@);
    let n = keys.len();
    let mut i: usize = 0;
    proof {
        assert(ks.take(0) =~= Seq::<Seq<char>>::empty());
        assert(out@ =~= line("Success"@) + join(ks.take(0), crlf()));
    }
    while i < n
        invariant
            n == keys@.len(),
            i <= n,
            ks == keys@.map_values(|s: String| s@),
            out@ == line("Success"@) + join(ks.take(i as int), crlf()),
        decreases n - i,
    {
        if i > 0 {
            out.append("\r\n");
        }
        out.append(keys[i].as_str());
        proof {
            let t = ks.take(i + 1);
            reveal_strlit("\r\n");
            assert(t.drop_last() =~= ks.take(i as int));
            assert(t.last() == keys@[i as int]@);
            if i == 0 {
                assert(ks.take(0) =~= Seq::<Seq<char>>::empty());
                assert(t[0] == keys@[0]@);
                assert(out@ =~= line("Success"@) + join(t, crlf()));
            } else {
                assert(join(t, crlf()) == join(ks.take(i as int), crlf()) + crlf() + t.last());
                assert(out@ =~= line("Success"@) + join(t, crlf()));
            }
        }
        i = i + 1;
    }
    out.append("\r\n");
    proof {
        assert(ks.take(n as int) =~= ks);
        assert(out@ =~= scan_response(ks));
    }
    out
}

/// Runs `req` on `engine` and gives the response to send back: the
/// response is the text of what the engine call returned. On a reliable
/// engine that text is fixed by the request and the stored map.
pub fn respond<E: KvsEngine>(engine: &mut E, req: Request) -> (r: String)
    requires
        old(engine).well_formed(),
    ensures
        final(engine).well_formed(),
        final(engine).reliable() == old(engine).reliable(),
        match req {
            Request::Put { key, value } => {
                &&& exists|res: Result<()>|
                    #[trigger] unit_text_matches(res, r@) && (res is Ok ==> final(engine).contents()
                        == old(engine).contents().insert(key@, value@)) && (old(engine).reliable()
                        ==> (res is Ok <==> old(engine).admits(key@, value@)) && (res matches Err(
                        e,
                    ) ==> !e.has_cause()) && (res is Err ==> final(engine).contents() == old(
                        engine,
                    ).contents()))
                &&& old(engine).reliable() && old(engine).admits(key@, value@) ==> r@
                    == success_response() && final(engine).contents() == old(
                    engine,
                ).contents().insert(key@, value@)
            },
            Request::Get { key } => {
                &&& final(engine).contents() == old(engine).contents()
                &&& exists|res: Result<Option<String>>|
                    #[trigger] get_text_matches(res, r@) && (res matches Ok(o) ==> (o is Some
                        <==> old(engine).contents().contains_key(key@))) && (res matches Ok(
                        Some(v),
                    ) ==> v@ == old(engine).contents()[key@]) && (old(engine).reliable()
                        ==> res is Ok)
                &&& old(engine).reliable() && old(engine).contents().contains_key(key@) ==> r@
                    == get_found_response(old(engine).contents()[key@])
                &&& old(engine).reliable() && !old(engine).contents().contains_key(key@) ==> r@
                    == get_missing_response()
            },
            Request::Rm { key } => {
                &&& exists|res: Result<()>|
                    #[trigger] unit_text_matches(res, r@) && (res is Ok ==> old(
                        engine,
                    ).contents().contains_key(key@) && final(engine).contents() == old(
                        engine,
                    ).contents().remove(key@)) && (!old(engine).contents().contains_key(key@)
                        ==> res is Err) && (old(engine).reliable() ==> (res is Ok <==> old(
                        engine,
                    ).contents().contains_key(key@)) && (res is Err ==> (res matches Err(
                        KvsError::KeyNotFound,
                    ))))
                &&& old(engine).reliable() && old(engine).contents().contains_key(key@) ==> r@
                    == success_response() && final(engine).contents() == old(
                    engine,
                ).contents().remove(key@)
                &&& old(engine).reliable() && !old(engine).contents().contains_key(key@) ==> r@
                    == error_response("Key not found"@) && final(engine).contents() == old(
                    engine,
                ).contents()
            },
            Request::Scan => {
                &&& final(engine).contents() == old(engine).contents()
                &&& exists|ks: Seq<Seq<char>>|
                    #[trigger] scan_response(ks) == r@ && (forall|i: int|
                        0 <= i < ks.len() ==> old(engine).contents().contains_key(
                            #[trigger] ks[i],
                        )) && (forall|i: int, j: int| 0 <= i < j < ks.len() ==> ks[i] != ks[j])
                        && (old(engine).reliable() ==> forall|k: Seq<char>|
                        old(engine).contents().contains_key(k) ==> exists|i: int|
                            0 <= i < ks.len() && #[trigger] ks[i] == k)
            },
        },
{
    match req {
        Request::Put { key, value } => {
            let res = engine.set(key, value);
            let t = set_response(&res);
            assert(unit_text_matches(res, t@));
            t
        },
        Request::Get { key } => {
            let res = engine.get(key);
            let t = get_response_text(&res);
            assert(get_text_matches(res, t@));
            t
        },
        Request::Rm { key } => {
            let res = engine.remove(key);
            let t = set_response(&res);
            proof {
                reveal_strlit("Key not found");
            }
            assert(unit_text_matches(res, t@));
            t
        },
        Request::Scan => {
            let keys = engine.scan();
            let t = scan_response_text(&keys);
            proof {
                let ks = keys@.map_values(|s: String| s@);
                assert(scan_response(ks) == t@);
                assert forall|i: int| 0 <= i < ks.len() implies engine.contents().contains_key(
                    #[trigger] ks[i],
                ) by {
                    assert(ks[i] == keys@[i]@);
                }
                assert forall|i: int, j: int| 0 <= i < j < ks.len() implies ks[i] != ks[j] by {
                    assert(ks[i] == keys@[i]@ && ks[j] == keys@[j]@);
                }
                if engine.reliable() {
                    assert forall|k: Seq<char>| engine.contents().contains_key(k) implies exists|
                        i: int,
                    | 0 <= i < ks.len() && #[trigger] ks[i] == k by {
                        let i = choose|i: int| 0 <= i < keys@.len() && #[trigger] keys@[i]@ == k;
                        assert(ks[i] == k);
                    }
                }
            }
            t
        },
    }
}

/// The line `s` without its line end: a final `\r\n`, or else a final `\n`.
pub open spec fn trimmed(s: Seq<char>) -> Seq<char> {
    if s.len() >= 2 && s[s.len() - 2] == '\r' && s[s.len() - 1] == '\n' {
        s.subrange(0, s.len() - 2)
    } else if s.len() >= 1 && s[s.len() - 1] == '\n' {
        s.subrange(0, s.len() - 1)
    } else {
        s
    }
}

/// The line `line` as read from a stream, without its line end.
pub fn trim_line_end(line: &str) -> (r: String)
    ensures
        r@ == trimmed(line@),
{
    let n = line.unicode_len();
    let text = if n >= 2 && line.get_char(n - 2) == '\r' && line.get_char(n - 1) == '\n' {
        line.substring_char(0, n - 2)
    } else if n >= 1 && line.get_char(n - 1) == '\n' {
        line.substring_char(0, n - 1)
    } else {
        line
    };
    let mut out = String::new();
    out.append(text);
    assert(out@ =~= trimmed(line@));
    out
}

/// Reads a request from the lines received so far, line ends removed:
/// `Ok(None)` while more lines are needed.
pub fn parse_request(lines: &Vec<String>) -> (r: Result<Option<Request>>)
    ensures
        lines@.len() == 0 ==> (r matches Ok(None)),
        lines@.len() > 0 && lines@[0]@ == "SET"@ ==> (lines@.len() < 3 ==> (r matches Ok(None)))
            && (lines@.len() >= 3 ==> (r matches Ok(Some(Request::Put { key, value })) && key@
            == lines@[1]@ && value@ == lines@[2]@)),
        lines@.len() > 0 && lines@[0]@ == "GET"@ ==> (lines@.len() < 2 ==> (r matches Ok(None)))
            && (lines@.len() >= 2 ==> (r matches Ok(Some(Request::Get { key })) && key@
            == lines@[1]@)),
        lines@.len() > 0 && lines@[0]@ == "RM"@ ==> (lines@.len() < 2 ==> (r matches Ok(None)))
            && (lines@.len() >= 2 ==> (r matches Ok(Some(Request::Rm { key })) && key@
            == lines@[1]@)),
        lines@.len() > 0 && lines@[0]@ == "SCAN"@ ==> (r matches Ok(Some(Request::Scan))),
        lines@.len() > 0 && lines@[0]@ != "SET"@ && lines@[0]@ != "GET"@ && lines@[0]@ != "RM"@
            && lines@[0]@ != "SCAN"@ ==> (r matches Err(KvsError::CmdNotSupport)),
{
    proof {
        reveal_strlit("SET");
        reveal_strlit("GET");
        reveal_strlit("RM");
        reveal_strlit("SCAN");
        assert("SET"@[0] != "GET"@[0]);
        assert("SET"@.len() == 3 && "GET"@.len() == 3 && "RM"@.len() == 2 && "SCAN"@.len() == 4);
    }
    let n = lines.len();
    if n == 0 {
        return Ok(None);
    }
    let w = lines[0].as_str();
    if str_eq(w, "SET") {
        if n >= 3 {
            Ok(Some(Request::Put { key: lines[1].clone(), value: lines[2].clone() }))
        } else {
            Ok(None)
        }
    } else if str_eq(w, "GET") {
        if n >= 2 {
            Ok(Some(Request::Get { key: lines[1].clone() }))
        } else {
            Ok(None)
        }
    } else if str_eq(w, "RM") {
        if n >= 2 {
            Ok(Some(Request::Rm { key: lines[1].clone() }))
        } else {
            Ok(None)
        }
    } else if str_eq(w, "SCAN") {
        Ok(Some(Request::Scan))
    } else {
        Err(KvsError::CmdNotSupport)
    }
}

/// The message of a response that is neither a success nor an error.
pub open spec fn unknown_error() -> Seq<char> {
    "Some unknown errors have occurred."@
}

/// What the client shows for the response lines `lines` (line ends removed)
/// to a request of kind `kind`: the text to print, or the error to report.
pub open spec fn response_value(lines: Seq<Seq<char>>, kind: Seq<char>) -> core::result::Result<
    Seq<char>,
    Seq<char>,
> {
    if lines.len() == 0 {
        Err(unknown_error())
    } else if lines[0] == "Success"@ {
        if kind == "GET"@ {
            if lines.len() < 2 {
                Err(unknown_error())
            } else if lines[1] == "-1"@ {
                Ok("Key not found"@)
            } else if lines.len() < 3 {
                Err(unknown_error())
            } else {
                Ok(lines[2])
            }
        } else if kind == "SCAN"@ {
            if lines.len() < 2 {
                Err(unknown_error())
            } else {
                Ok(lines[1])
            }
        } else {
            Ok(Seq::empty())
        }
    } else if lines[0] == "Error"@ {
        if lines.len() < 2 {
            Err(unknown_error())
        } else {
            Err(lines[1])
        }
    } else {
        Err(unknown_error())
    }
}

fn string_of(s: &str) -> (r: String)
    ensures
        r@ == s@,
{
    let mut out = String::new();
    out.append(s);
    assert(out@ =~= s@);
    out
}

/// What the client shows for the response lines `lines` (line ends removed)
/// to a request of kind `response_type` (`SET`, `GET`, `RM` or `SCAN`).
pub fn parse_response_to_string(lines: &Vec<String>, response_type: &str) -> (r: core::result::Result<
    String,
    String,
>)
    ensures
        match r {
            Ok(s) => response_value(lines@.map_values(|s: String| s@), response_type@) == Ok::<
                Seq<char>,
                Seq<char>,
            >(s@),
            Err(s) => response_value(lines@.map_values(|s: String| s@), response_type@) == Err::<
                Seq<char>,
                Seq<char>,
            >(s@),
        },
{
    proof {
        reveal_strlit("Success");
        reveal_strlit("Error");
        reveal_strlit("GET");
        reveal_strlit("SCAN");
        reveal_strlit("-1");
    }
    let ghost ls = lines@.map_values(|s: String| s@);
    let n = lines.len();
    let unknown = "Some unknown errors have occurred.";
    if n == 0 {
        return Err(string_of(unknown));
    }
    assert(ls[0] == lines@[0]@);
    if str_eq(lines[0].as_str(), "Success") {
        if str_eq(response_type, "GET") {
            if n < 2 {
                Err(string_of(unknown))
            } else if str_eq(lines[1].as_str(), "-1") {
                assert(ls[1] == lines@[1]@);
                Ok(string_of("Key not found"))
            } else if n < 3 {
                assert(ls[1] == lines@[1]@);
                Err(string_of(unknown))
            } else {
                assert(ls[1] == lines@[1]@);
                assert(ls[2] == lines@[2]@);
                Ok(lines[2].clone())
            }
        } else if str_eq(response_type, "SCAN") {
            if n < 2 {
                Err(string_of(unknown))
            } else {
                assert(ls[1] == lines@[1]@);
                Ok(lines[1].clone())
            }
        } else {
            Ok(String::new())
        }
    } else if str_eq(lines[0].as_str(), "Error") {
        if n < 2 {
            Err(string_of(unknown))
        } else {
            assert(ls[1] == lines@[1]@);
            Err(lines[1].clone())
        }
    } else {
        Err(string_of(unknown))
    }
}

} // verus!
