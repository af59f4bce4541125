use vstd::prelude::*;
use vstd::string::StringSliceAdditionalSpecFns;
use vstd::utf8::{decode_utf8, encode_utf8, valid_utf8};
use crate::proto::{Project, ProjectView};

verus! {

// The handshake frame: one record `{"root":...,"command":...,"args":[...]}`
// sent as the first payload of a connection. The frame is canonical: string
// contents are escaped exactly as `escape_byte` prescribes and nothing else
// (no extra whitespace, no alternative escapes), so every descriptor has one
// frame and every frame decodes to at most one descriptor.

pub const QUOTE: u8 = 0x22;
pub const BSLASH: u8 = 0x5c;
pub const COMMA: u8 = 0x2c;
pub const RBRACKET: u8 = 0x5d;
pub const RBRACE: u8 = 0x7d;

/// Lowercase hexadecimal digit for a value below 16.
pub open spec fn hex_digit(n: u8) -> u8 {
    if n < 10 {
        (0x30 + n) as u8
    } else {
        (0x61 + (n - 10)) as u8
    }
}

/// Control bytes with a short escape of their own.
pub open spec fn has_short_escape(b: u8) -> bool {
    b == 0x08 || b == 0x09 || b == 0x0a || b == 0x0c || b == 0x0d
}

/// The canonical escape of one byte of string content: quote and backslash
/// are escaped, the five common control bytes get their short escapes, any
/// other control byte becomes a `\u00..` escape, and everything else (ASCII
/// and UTF-8 continuation bytes alike) passes through unchanged.
pub open spec fn escape_byte(b: u8) -> Seq<u8> {
    if b == QUOTE {
        seq![BSLASH, QUOTE]
    } else if b == BSLASH {
        seq![BSLASH, BSLASH]
    } else if b == 0x08 {
        seq![BSLASH, 0x62]
    } else if b == 0x09 {
        seq![BSLASH, 0x74]
    } else if b == 0x0a {
        seq![BSLASH, 0x6e]
    } else if b == 0x0c {
        seq![BSLASH, 0x66]
    } else if b == 0x0d {
        seq![BSLASH, 0x72]
    } else if b < 0x20 {
        seq![BSLASH, 0x75, 0x30, 0x30, hex_digit(b / 16), hex_digit(b % 16)]
    } else {
        seq![b]
    }
}

pub open spec fn escape_bytes(s: Seq<u8>) -> Seq<u8>
    decreases s.len(),
{
    if s.len() == 0 {
        Seq::empty()
    } else {
        escape_byte(s[0]) + escape_bytes(s.drop_first())
    }
}

/// A quoted string: its escaped content between two quotes.
pub open spec fn quoted(s: Seq<u8>) -> Seq<u8> {
    seq![QUOTE] + escape_bytes(s) + seq![QUOTE]
}

/// The argument list's interior: quoted strings joined by commas.
pub open spec fn args_interior(args: Seq<Seq<u8>>) -> Seq<u8>
    decreases args.len(),
{
    if args.len() == 0 {
        Seq::empty()
    } else if args.len() == 1 {
        quoted(args[0])
    } else {
        quoted(args[0]) + seq![COMMA] + args_interior(args.drop_first())
    }
}

/// The bytes `{"root":`.
pub open spec fn key_root() -> Seq<u8> {
    seq![0x7b, 0x22, 0x72, 0x6f, 0x6f, 0x74, 0x22, 0x3a]
}

/// The bytes `,"command":`.
pub open spec fn key_command() -> Seq<u8> {
    seq![0x2c, 0x22, 0x63, 0x6f, 0x6d, 0x6d, 0x61, 0x6e, 0x64, 0x22, 0x3a]
}

/// The bytes `,"args":[`.
pub open spec fn key_args() -> Seq<u8> {
    seq![0x2c, 0x22, 0x61, 0x72, 0x67, 0x73, 0x22, 0x3a, 0x5b]
}

/// The whole frame, over the UTF-8 bytes of the three fields.
pub open spec fn frame_bytes(root: Seq<u8>, command: Seq<u8>, args: Seq<Seq<u8>>) -> Seq<u8> {
    key_root() + quoted(root) + key_command() + quoted(command) + key_args() + args_interior(args)
        + seq![RBRACKET, RBRACE]
}

/// The canonical handshake frame of a descriptor.
pub open spec fn spec_encode_project(p: ProjectView) -> Seq<u8> {
    frame_bytes(
        encode_utf8(p.root),
        encode_utf8(p.command),
        p.args.map_values(|s: Seq<char>| encode_utf8(s)),
    )
}

proof fn lemma_escape_bytes_snoc(s: Seq<u8>, x: u8)
    ensures
        escape_bytes(s.push(x)) == escape_bytes(s) + escape_byte(x),
    decreases s.len(),
{
    if s.len() == 0 {
        let p = s.push(x);
        assert(p[0] == x);
        assert(p.drop_first() =~= Seq::<u8>::empty());
        assert(escape_bytes(Seq::<u8>::empty()) == Seq::<u8>::empty());
        assert(escape_bytes(p) == escape_byte(x) + escape_bytes(p.drop_first()));
        assert(escape_byte(x) + Seq::<u8>::empty() =~= escape_byte(x));
        assert(escape_bytes(s) + escape_byte(x) =~= escape_byte(x));
    } else {
        assert(s.push(x)[0] == s[0]);
        assert(s.push(x).drop_first() =~= s.drop_first().push(x));
        lemma_escape_bytes_snoc(s.drop_first(), x);
        assert(escape_byte(s[0]) + (escape_bytes(s.drop_first()) + escape_byte(x)) =~= (escape_byte(
            s[0],
        ) + escape_bytes(s.drop_first())) + escape_byte(x));
    }
}

fn hex_digit_of(n: u8) -> (r: u8)
    requires
        n < 16,
    ensures
        r == hex_digit(n),
{
    if n < 10 {
        0x30 + n
    } else {
        0x61 + (n - 10)
    }
}

/// Appends the canonical quoted form of `s` to `out`.
fn push_quoted(out: &mut Vec<u8>, s: &str)
    ensures
        final(out)@ == old(out)@ + quoted(s.spec_bytes()),
{
    let bs = s.as_bytes();
    out.push(QUOTE);
    let ghost base = out@;
    let mut i: usize = 0;
    while i < bs.len()
        invariant
            i <= bs@.len(),
            out@ == base + escape_bytes(bs@.take(i as int)),
        decreases bs@.len() - i,
    {
        let b = bs[i];
        if b == QUOTE {
            out.push(BSLASH);
            out.push(QUOTE);
        } else if b == BSLASH {
            out.push(BSLASH);
            out.push(BSLASH);
        } else if b == 0x08 {
            out.push(BSLASH);
            out.push(0x62);
        } else if b == 0x09 {
            out.push(BSLASH);
            out.push(0x74);
        } else if b == 0x0a {
            out.push(BSLASH);
            out.push(0x6e);
        } else if b == 0x0c {
            out.push(BSLASH);
            out.push(0x66);
        } else if b == 0x0d {
            out.push(BSLASH);
            out.push(0x72);
        } else if b < 0x20 {
            out.push(BSLASH);
            out.push(0x75);
            out.push(0x30);
            out.push(0x30);
            out.push(hex_digit_of(b / 16));
            out.push(hex_digit_of(b % 16));
        } else {
            out.push(b);
        }
        proof {
            assert(bs@.take(i as int).push(bs@[i as int]) =~= bs@.take(i + 1 as int));
            lemma_escape_bytes_snoc(bs@.take(i as int), bs@[i as int]);
            assert(out@ =~= base + escape_bytes(bs@.take(i + 1 as int)));
        }
        i += 1;
    }
    assert(bs@.take(bs@.len() as int) =~= bs@);
    out.push(QUOTE);
    assert(out@ =~= old(out)@ + quoted(s.spec_bytes()));
}

proof fn lemma_args_interior_snoc(a: Seq<Seq<u8>>, x: Seq<u8>)
    requires
        a.len() > 0,
    ensures
        args_interior(a.push(x)) == args_interior(a) + seq![COMMA] + quoted(x),
    decreases a.len(),
{
    if a.len() == 1 {
        let p = a.push(x);
        assert(p.len() == 2);
        assert(p[0] == a[0]);
        assert(p.drop_first() =~= seq![x]);
        assert(args_interior(seq![x]) == quoted(x));
        assert(quoted(a[0]) + seq![COMMA] + quoted(x) =~= args_interior(a) + seq![COMMA] + quoted(
            x,
        ));
    } else {
        let p = a.push(x);
        assert(p[0] == a[0]);
        assert(p.drop_first() =~= a.drop_first().push(x));
        lemma_args_interior_snoc(a.drop_first(), x);
        assert(args_interior(p) == quoted(p[0]) + seq![COMMA] + args_interior(p.drop_first()));
        assert(quoted(a[0]) + seq![COMMA] + (args_interior(a.drop_first()) + seq![COMMA] + quoted(
            x,
        )) =~= (quoted(a[0]) + seq![COMMA] + args_interior(a.drop_first())) + seq![COMMA] + quoted(
            x,
        ));
    }
}

/// Appends the comma-separated quoted arguments to `out`.
fn push_args_interior(out: &mut Vec<u8>, args: &Vec<String>)
    ensures
        final(out)@ == old(out)@ + args_interior(
            args.deep_view().map_values(|s: Seq<char>| encode_utf8(s)),
        ),
{
    let ghost mapped = args.deep_view().map_values(|s: Seq<char>| encode_utf8(s));
    let ghost base = out@;
    let mut i: usize = 0;
    while i < args.len()
        invariant
            i <= args@.len(),
            mapped == args.deep_view().map_values(|s: Seq<char>| encode_utf8(s)),
            mapped.len() == args@.len(),
            out@ == base + args_interior(mapped.take(i as int)),
        decreases args@.len() - i,
    {
        if i > 0 {
            out.push(COMMA);
        }
        push_quoted(out, args[i].as_str());
        proof {
            assert(mapped[i as int] == encode_utf8(args@[i as int]@));
            assert(mapped.take(i as int).push(mapped[i as int]) =~= mapped.take(i + 1 as int));
            if i == 0 {
                assert(args_interior(mapped.take(1int)) == quoted(mapped[0int]));
                assert(out@ =~= base + args_interior(mapped.take(i + 1 as int)));
            } else {
                lemma_args_interior_snoc(mapped.take(i as int), mapped[i as int]);
                assert(out@ =~= base + args_interior(mapped.take(i + 1 as int)));
            }
        }
        i += 1;
    }
    assert(mapped.take(mapped.len() as int) =~= mapped);
}

/// Encodes a descriptor as its canonical handshake frame.
pub fn encode_project(p: &Project) -> (r: Vec<u8>)
    ensures
        r@ == spec_encode_project(p@),
{
    let mut out: Vec<u8> = Vec::new();
    out.push(0x7b);
    out.push(0x22);
    out.push(0x72);
    out.push(0x6f);
    out.push(0x6f);
    out.push(0x74);
    out.push(0x22);
    out.push(0x3a);
    assert(out@ =~= key_root());
    push_quoted(&mut out, p.root.as_str());
    out.push(0x2c);
    out.push(0x22);
    out.push(0x63);
    out.push(0x6f);
    out.push(0x6d);
    out.push(0x6d);
    out.push(0x61);
    out.push(0x6e);
    out.push(0x64);
    out.push(0x22);
    out.push(0x3a);
    let ghost mid1 = out@;
    assert(mid1 =~= key_root() + quoted(encode_utf8(p.root@)) + key_command());
    push_quoted(&mut out, p.command.as_str());
    out.push(0x2c);
    out.push(0x22);
    out.push(0x61);
    out.push(0x72);
    out.push(0x67);
    out.push(0x73);
    out.push(0x22);
    out.push(0x3a);
    out.push(0x5b);
    let ghost mid2 = out@;
    assert(mid2 =~= key_root() + quoted(encode_utf8(p.root@)) + key_command() + quoted(
        encode_utf8(p.command@),
    ) + key_args());
    push_args_interior(&mut out, &p.args);
    out.push(RBRACKET);
    out.push(RBRACE);
    assert(out@ =~= spec_encode_project(p@));
    out
}

// ---------------------------------------------------------------------------
// Decoding. The spec-level parser below accepts exactly the canonical frames
// that `spec_encode_project` produces; anything else - extra whitespace, a
// non-canonical escape, a raw control byte, trailing bytes - is malformed.

pub open spec fn is_hex_lower(b: u8) -> bool {
    (0x30 <= b && b <= 0x39) || (0x61 <= b && b <= 0x66)
}

pub open spec fn hex_val(b: u8) -> u8 {
    if b < 0x3a {
        (b - 0x30) as u8
    } else {
        ((b - 0x61) + 10) as u8
    }
}

/// Simple two-byte escapes: the escaped byte for an introducer `\x`.
pub open spec fn short_unescape(e: u8) -> Option<u8> {
    if e == QUOTE {
        Some(QUOTE)
    } else if e == BSLASH {
        Some(BSLASH)
    } else if e == 0x62 {
        Some(0x08u8)
    } else if e == 0x74 {
        Some(0x09u8)
    } else if e == 0x6e {
        Some(0x0au8)
    } else if e == 0x66 {
        Some(0x0cu8)
    } else if e == 0x72 {
        Some(0x0du8)
    } else {
        None
    }
}

/// Parses escaped string content up to and including the closing quote:
/// returns the unescaped content bytes and how many input bytes were
/// consumed, or `None` when the input is not canonical escaped content.
pub open spec fn spec_unescape(b: Seq<u8>) -> Option<(Seq<u8>, nat)>
    decreases b.len(),
{
    if b.len() == 0 {
        None
    } else if b[0] == QUOTE {
        Some((Seq::empty(), 1nat))
    } else if b[0] == BSLASH {
        if b.len() < 2 {
            None
        } else {
            match short_unescape(b[1]) {
                Some(c) => match spec_unescape(b.skip(2)) {
                    None => None,
                    Some((s, n)) => Some((seq![c] + s, (n + 2) as nat)),
                },
                None => {
                    if b[1] == 0x75 {
                        if b.len() < 6 {
                            None
                        } else if b[2] == 0x30 && b[3] == 0x30 && is_hex_lower(b[4])
                            && is_hex_lower(b[5]) {
                            let c = (hex_val(b[4]) * 16 + hex_val(b[5])) as u8;
                            if c < 0x20 && !has_short_escape(c) {
                                match spec_unescape(b.skip(6)) {
                                    None => None,
                                    Some((s, n)) => Some((seq![c] + s, (n + 6) as nat)),
                                }
                            } else {
                                None
                            }
                        } else {
                            None
                        }
                    } else {
                        None
                    }
                },
            }
        }
    } else if b[0] < 0x20 {
        None
    } else {
        match spec_unescape(b.skip(1)) {
            None => None,
            Some((s, n)) => Some((seq![b[0]] + s, (n + 1) as nat)),
        }
    }
}

/// Parses a quoted string, both quotes included in the consumed count.
pub open spec fn spec_parse_quoted(b: Seq<u8>) -> Option<(Seq<u8>, nat)> {
    if b.len() == 0 || b[0] != QUOTE {
        None
    } else {
        match spec_unescape(b.skip(1)) {
            None => None,
            Some((s, n)) => Some((s, (n + 1) as nat)),
        }
    }
}

/// Parses a non-empty `"..."(,"...")*` list up to and including the closing
/// bracket.
pub open spec fn spec_parse_args_items(b: Seq<u8>) -> Option<(Seq<Seq<u8>>, nat)>
    decreases b.len(),
{
    match spec_parse_quoted(b) {
        None => None,
        Some((s, n)) => {
            if n >= b.len() {
                None
            } else if b[n as int] == RBRACKET {
                Some((seq![s], (n + 1) as nat))
            } else if b[n as int] == COMMA {
                match spec_parse_args_items(b.skip(n + 1 as int)) {
                    None => None,
                    Some((ss, m)) => Some((seq![s] + ss, (n + 1 + m) as nat)),
                }
            } else {
                None
            }
        },
    }
}

/// Parses the argument list after the opening bracket, up to and including
/// the closing bracket.
pub open spec fn spec_parse_args(b: Seq<u8>) -> Option<(Seq<Seq<u8>>, nat)> {
    if b.len() == 0 {
        None
    } else if b[0] == RBRACKET {
        Some((Seq::empty(), 1nat))
    } else {
        spec_parse_args_items(b)
    }
}

/// Parses a whole frame into the UTF-8 bytes of its three fields. The frame
/// must be consumed exactly: trailing bytes are malformed.
pub open spec fn spec_decode_frame(b: Seq<u8>) -> Option<(Seq<u8>, Seq<u8>, Seq<Seq<u8>>)> {
    if !key_root().is_prefix_of(b) {
        None
    } else {
        match spec_parse_quoted(b.skip(8int)) {
            None => None,
            Some((root, n1)) => {
                let p1 = 8 + n1;
                if !key_command().is_prefix_of(b.skip(p1 as int)) {
                    None
                } else {
                    match spec_parse_quoted(b.skip(p1 + 11 as int)) {
                        None => None,
                        Some((command, n2)) => {
                            let p2 = p1 + 11 + n2;
                            if !key_args().is_prefix_of(b.skip(p2 as int)) {
                                None
                            } else {
                                match spec_parse_args(b.skip(p2 + 9 as int)) {
                                    None => None,
                                    Some((args, n3)) => {
                                        let p3 = p2 + 9 + n3;
                                        if p3 + 1 == b.len() && b[p3 as int] == RBRACE {
                                            Some((root, command, args))
                                        } else {
                                            None
                                        }
                                    },
                                }
                            }
                        },
                    }
                }
            },
        }
    }
}

/// The descriptor encoded by a frame: the parsed fields, decoded from UTF-8;
/// `None` when the frame is malformed or a field is not valid UTF-8.
pub open spec fn spec_decode_project(b: Seq<u8>) -> Option<ProjectView> {
    match spec_decode_frame(b) {
        None => None,
        Some((root, command, args)) => {
            if valid_utf8(root) && valid_utf8(command) && (forall|i: int|
                0 <= i < args.len() ==> valid_utf8(#[trigger] args[i])) {
                Some(
                    ProjectView {
                        root: decode_utf8(root),
                        command: decode_utf8(command),
                        args: args.map_values(|s: Seq<u8>| decode_utf8(s)),
                    },
                )
            } else {
                None
            }
        },
    }
}

/// Relies on `String::from_utf8`: it returns `Ok` exactly when the bytes are
/// valid UTF-8, and then the string's characters are their decoding.
#[verifier::external_body]
fn string_from_utf8(v: &Vec<u8>) -> (r: Option<String>)
    ensures
        r is Some <==> valid_utf8(v@),
        r matches Some(s) ==> s@ == decode_utf8(v@),
{
    String::from_utf8(v.clone()).ok()
}

/// Parses escaped string content starting at `start`, mirroring
/// `spec_unescape` on the suffix; on success returns the content bytes and
/// the position just past the closing quote.
fn parse_string_body(b: &[u8], start: usize) -> (r: Option<(Vec<u8>, usize)>)
    requires
        start <= b@.len(),
    ensures
        match r {
            Some(p) => start < p.1 <= b@.len() && spec_unescape(b@.skip(start as int)) == Some(
                (p.0@, (p.1 - start) as nat),
            ),
            None => spec_unescape(b@.skip(start as int)) is None,
        },
{
    let mut acc: Vec<u8> = Vec::new();
    let mut i: usize = start;
    loop
        invariant
            start <= i <= b@.len(),
            ({
                let tail = spec_unescape(b@.skip(i as int));
                let whole = spec_unescape(b@.skip(start as int));
                &&& (tail is None ==> whole is None)
                &&& (tail matches Some((s, n)) ==> whole == Some(
                    (acc@ + s, ((i - start) as nat + n) as nat),
                ))
            }),
        decreases b@.len() - i,
    {
        proof {
            if i < b@.len() {
                assert(b@.skip(i as int)[0] == b@[i as int]);
            }
        }
        if i >= b.len() {
            assert(b@.skip(i as int).len() == 0);
            return None;
        }
        let c = b[i];
        if c == QUOTE {
            assert(spec_unescape(b@.skip(i as int)) == Some((Seq::<u8>::empty(), 1nat)));
            assert(acc@ + Seq::<u8>::empty() =~= acc@);
            return Some((acc, i + 1));
        } else if c == BSLASH {
            if b.len() - i < 2 {
                assert(b@.skip(i as int).len() < 2);
                return None;
            }
            let e = b[i + 1];
            assert(b@.skip(i as int)[1] == b@[i + 1 as int]);
            let short: Option<u8> = if e == QUOTE {
                Some(QUOTE)
            } else if e == BSLASH {
                Some(BSLASH)
            } else if e == 0x62 {
                Some(0x08u8)
            } else if e == 0x74 {
                Some(0x09u8)
            } else if e == 0x6e {
                Some(0x0au8)
            } else if e == 0x66 {
                Some(0x0cu8)
            } else if e == 0x72 {
                Some(0x0du8)
            } else {
                None
            };
            assert(short == short_unescape(b@[i + 1 as int]));
            match short {
                Some(u) => {
                    let ghost prev = acc@;
                    acc.push(u);
                    proof {
                        assert(b@.skip(i as int).skip(2) =~= b@.skip(i + 2 as int));
                        assert(prev + (seq![u] + spec_unescape(b@.skip(i + 2 as int)).unwrap().0)
                            =~= acc@ + spec_unescape(b@.skip(i + 2 as int)).unwrap().0);
                    }
                    i = i + 2;
                },
                None => {
                    if e == 0x75 {
                        if b.len() - i < 6 {
                            assert(b@.skip(i as int).len() < 6);
                            return None;
                        }
                        assert(b@.skip(i as int)[2] == b@[i + 2 as int]);
                        assert(b@.skip(i as int)[3] == b@[i + 3 as int]);
                        assert(b@.skip(i as int)[4] == b@[i + 4 as int]);
                        assert(b@.skip(i as int)[5] == b@[i + 5 as int]);
                        if b[i + 2] != 0x30 || b[i + 3] != 0x30 {
                            return None;
                        }
                        let h1 = b[i + 4];
                        let h2 = b[i + 5];
                        let ok1 = (0x30 <= h1 && h1 <= 0x39) || (0x61 <= h1 && h1 <= 0x66);
                        let ok2 = (0x30 <= h2 && h2 <= 0x39) || (0x61 <= h2 && h2 <= 0x66);
                        if !ok1 || !ok2 {
                            return None;
                        }
                        let v1 = if h1 < 0x3a {
                            h1 - 0x30
                        } else {
                            h1 - 0x61 + 10
                        };
                        let v2 = if h2 < 0x3a {
                            h2 - 0x30
                        } else {
                            h2 - 0x61 + 10
                        };
                        let u = v1 * 16 + v2;
                        assert(u == (hex_val(b@[i + 4 as int]) * 16 + hex_val(
                            b@[i + 5 as int],
                        )) as u8);
                        if !(u < 0x20 && !(u == 0x08 || u == 0x09 || u == 0x0a || u == 0x0c || u
                            == 0x0d)) {
                            return None;
                        }
                        let ghost prev = acc@;
                        acc.push(u);
                        proof {
                            assert(b@.skip(i as int).skip(6) =~= b@.skip(i + 6 as int));
                            assert(prev + (seq![u] + spec_unescape(
                                b@.skip(i + 6 as int),
                            ).unwrap().0) =~= acc@ + spec_unescape(b@.skip(i + 6 as int)).unwrap().0);
                        }
                        i = i + 6;
                    } else {
                        return None;
                    }
                },
            }
        } else if c < 0x20 {
            return None;
        } else {
            let ghost prev = acc@;
            acc.push(c);
            proof {
                assert(b@.skip(i as int).skip(1) =~= b@.skip(i + 1 as int));
                assert(prev + (seq![c] + spec_unescape(b@.skip(i + 1 as int)).unwrap().0) =~= acc@
                    + spec_unescape(b@.skip(i + 1 as int)).unwrap().0);
            }
            i = i + 1;
        }
    }
}

/// Parses a quoted string starting at `start`; on success returns the
/// content bytes and the position just past the closing quote.
fn parse_quoted(b: &[u8], start: usize) -> (r: Option<(Vec<u8>, usize)>)
    requires
        start <= b@.len(),
    ensures
        match r {
            Some(p) => start < p.1 <= b@.len() && spec_parse_quoted(b@.skip(start as int)) == Some(
                (p.0@, (p.1 - start) as nat),
            ),
            None => spec_parse_quoted(b@.skip(start as int)) is None,
        },
{
    if start >= b.len() {
        return None;
    }
    assert(b@.skip(start as int)[0] == b@[start as int]);
    if b[start] != QUOTE {
        return None;
    }
    proof {
        assert(b@.skip(start as int).skip(1) =~= b@.skip(start + 1 as int));
    }
    match parse_string_body(b, start + 1) {
        None => None,
        Some((s, end)) => Some((s, end)),
    }
}


/// Parses the argument list starting at `start` (just past the opening
/// bracket); on success returns the arguments' content bytes and the
/// position just past the closing bracket.
fn parse_args(b: &[u8], start: usize) -> (r: Option<(Vec<Vec<u8>>, usize)>)
    requires
        start <= b@.len(),
    ensures
        match r {
            Some(p) => start < p.1 <= b@.len() && spec_parse_args(b@.skip(start as int)) == Some(
                (p.0.deep_view(), (p.1 - start) as nat),
            ),
            None => spec_parse_args(b@.skip(start as int)) is None,
        },
{
    if start >= b.len() {
        return None;
    }
    assert(b@.skip(start as int)[0] == b@[start as int]);
    if b[start] == RBRACKET {
        let items: Vec<Vec<u8>> = Vec::new();
        assert(items.deep_view() =~= Seq::<Seq<u8>>::empty());
        return Some((items, start + 1));
    }
    let mut items: Vec<Vec<u8>> = Vec::new();
    let mut i: usize = start;
    loop
        invariant
            start <= i <= b@.len(),
            spec_parse_args(b@.skip(start as int)) == spec_parse_args_items(b@.skip(start as int)),
            ({
                let tail = spec_parse_args_items(b@.skip(i as int));
                let whole = spec_parse_args_items(b@.skip(start as int));
                &&& (tail is None ==> whole is None)
                &&& (tail matches Some((ss, m)) ==> whole == Some(
                    (items.deep_view() + ss, ((i - start) as nat + m) as nat),
                ))
            }),
        decreases b@.len() - i,
    {
        match parse_quoted(b, i) {
            None => {
                return None;
            },
            Some((s, end)) => {
                let ghost tail = b@.skip(i as int);
                let ghost n = (end - i) as nat;
                if end >= b.len() {
                    assert(n >= tail.len());
                    return None;
                }
                assert(tail[n as int] == b@[end as int]);
                let ghost prev = items.deep_view();
                if b[end] == RBRACKET {
                    items.push(s);
                    proof {
                        assert(items.deep_view() =~~= prev.push(s@));
                        assert(seq![s@] + Seq::<Seq<u8>>::empty() =~= seq![s@]);
                        assert(prev + seq![s@] =~= items.deep_view());
                        assert(spec_parse_args_items(tail) == Some(
                            (seq![s@], (n + 1) as nat),
                        ));
                    }
                    return Some((items, end + 1));
                } else if b[end] == COMMA {
                    items.push(s);
                    proof {
                        assert(items.deep_view() =~~= prev.push(s@));
                        assert(tail.skip(n + 1 as int) =~= b@.skip(end + 1 as int));
                        let t2 = spec_parse_args_items(b@.skip(end + 1 as int));
                        if t2 is Some {
                            let ss = t2.unwrap().0;
                            assert(prev + (seq![s@] + ss) =~= items.deep_view() + ss);
                        }
                    }
                    i = end + 1;
                } else {
                    return None;
                }
            },
        }
    }
}

/// Decodes a handshake frame into a descriptor. Returns `Some` exactly when
/// the bytes are the canonical frame of some descriptor, and then returns
/// that descriptor; on any malformed payload it returns `None`.
#[verifier::rlimit(100)]
pub fn decode_project(b: &[u8]) -> (r: Option<Project>)
    ensures
        match r {
            Some(p) => spec_decode_project(b@) == Some(p@),
            None => spec_decode_project(b@) is None,
        },
{
    if b.len() < 8 {
        assert(!key_root().is_prefix_of(b@)) by {
            assert(key_root().len() > b@.len());
        }
        return None;
    }
    if !(b[0] == 0x7b && b[1] == 0x22 && b[2] == 0x72 && b[3] == 0x6f && b[4] == 0x6f && b[5]
        == 0x74 && b[6] == 0x22 && b[7] == 0x3a) {
        assert(!key_root().is_prefix_of(b@)) by {
            assert(b@.subrange(0, 8int)[0] == b@[0]);
            assert(b@.subrange(0, 8int)[1] == b@[1]);
            assert(b@.subrange(0, 8int)[2] == b@[2]);
            assert(b@.subrange(0, 8int)[3] == b@[3]);
            assert(b@.subrange(0, 8int)[4] == b@[4]);
            assert(b@.subrange(0, 8int)[5] == b@[5]);
            assert(b@.subrange(0, 8int)[6] == b@[6]);
            assert(b@.subrange(0, 8int)[7] == b@[7]);
        }
        return None;
    }
    assert(key_root().is_prefix_of(b@)) by {
        assert(key_root() =~= b@.subrange(0, 8int));
    }
    let root_field = parse_quoted(b, 8);
    if root_field.is_none() {
        assert(b@.skip(8int) == b@.skip(8 as int));
        return None;
    }
    let (root_bytes, p1) = root_field.unwrap();
    assert(spec_parse_quoted(b@.skip(8int)) == Some((root_bytes@, (p1 - 8) as nat)));
    // `,"command":` occupies the next 11 bytes
    if b.len() - p1 < 11 {
        assert(!key_command().is_prefix_of(b@.skip(p1 as int)));
        return None;
    }
    if !(b[p1] == 0x2c && b[p1 + 1] == 0x22 && b[p1 + 2] == 0x63 && b[p1 + 3] == 0x6f && b[p1 + 4]
        == 0x6d && b[p1 + 5] == 0x6d && b[p1 + 6] == 0x61 && b[p1 + 7] == 0x6e && b[p1 + 8] == 0x64
        && b[p1 + 9] == 0x22 && b[p1 + 10] == 0x3a) {
        assert(!key_command().is_prefix_of(b@.skip(p1 as int))) by {
            let t = b@.skip(p1 as int);
            if key_command().is_prefix_of(t) {
                assert(t.subrange(0, 11int)[0] == b@[p1 as int]);
                assert(t.subrange(0, 11int)[1] == b@[p1 + 1 as int]);
                assert(t.subrange(0, 11int)[2] == b@[p1 + 2 as int]);
                assert(t.subrange(0, 11int)[3] == b@[p1 + 3 as int]);
                assert(t.subrange(0, 11int)[4] == b@[p1 + 4 as int]);
                assert(t.subrange(0, 11int)[5] == b@[p1 + 5 as int]);
                assert(t.subrange(0, 11int)[6] == b@[p1 + 6 as int]);
                assert(t.subrange(0, 11int)[7] == b@[p1 + 7 as int]);
                assert(t.subrange(0, 11int)[8] == b@[p1 + 8 as int]);
                assert(t.subrange(0, 11int)[9] == b@[p1 + 9 as int]);
                assert(t.subrange(0, 11int)[10] == b@[p1 + 10 as int]);
            }
        }
        return None;
    }
    assert(key_command().is_prefix_of(b@.skip(p1 as int))) by {
        let t = b@.skip(p1 as int);
        assert(key_command() =~= t.subrange(0, 11int));
    }
    let cmd_field = parse_quoted(b, p1 + 11);
    if cmd_field.is_none() {
        assert(b@.skip(p1 as int).skip(11int) =~= b@.skip(p1 + 11 as int));
        return None;
    }
    let (cmd_bytes, p2) = cmd_field.unwrap();
    proof {
        assert(b@.skip(p1 as int).skip(11int) =~= b@.skip(p1 + 11 as int));
    }
    // `,"args":[` occupies the next 9 bytes
    if b.len() - p2 < 9 {
        assert(!key_args().is_prefix_of(b@.skip(p2 as int)));
        return None;
    }
    if !(b[p2] == 0x2c && b[p2 + 1] == 0x22 && b[p2 + 2] == 0x61 && b[p2 + 3] == 0x72 && b[p2 + 4]
        == 0x67 && b[p2 + 5] == 0x73 && b[p2 + 6] == 0x22 && b[p2 + 7] == 0x3a && b[p2 + 8]
        == 0x5b) {
        assert(!key_args().is_prefix_of(b@.skip(p2 as int))) by {
            let t = b@.skip(p2 as int);
            if key_args().is_prefix_of(t) {
                assert(t.subrange(0, 9int)[0] == b@[p2 as int]);
                assert(t.subrange(0, 9int)[1] == b@[p2 + 1 as int]);
                assert(t.subrange(0, 9int)[2] == b@[p2 + 2 as int]);
                assert(t.subrange(0, 9int)[3] == b@[p2 + 3 as int]);
                assert(t.subrange(0, 9int)[4] == b@[p2 + 4 as int]);
                assert(t.subrange(0, 9int)[5] == b@[p2 + 5 as int]);
                assert(t.subrange(0, 9int)[6] == b@[p2 + 6 as int]);
                assert(t.subrange(0, 9int)[7] == b@[p2 + 7 as int]);
                assert(t.subrange(0, 9int)[8] == b@[p2 + 8 as int]);
            }
        }
        return None;
    }
    assert(key_args().is_prefix_of(b@.skip(p2 as int))) by {
        let t = b@.skip(p2 as int);
        assert(key_args() =~= t.subrange(0, 9int));
    }
    let args_field = parse_args(b, p2 + 9);
    if args_field.is_none() {
        assert(b@.skip(p2 as int).skip(9int) =~= b@.skip(p2 + 9 as int));
        return None;
    }
    let (arg_bytes, p3) = args_field.unwrap();
    proof {
        assert(b@.skip(p2 as int).skip(9int) =~= b@.skip(p2 + 9 as int));
    }
    if !(p3 < b.len() && b[p3] == RBRACE && p3 + 1 == b.len()) {
        return None;
    }
    assert(spec_decode_frame(b@) == Some((root_bytes@, cmd_bytes@, arg_bytes.deep_view())));
    // All three fields must be valid UTF-8 to form a descriptor.
    let root = string_from_utf8(&root_bytes);
    let command = string_from_utf8(&cmd_bytes);
    if root.is_none() || command.is_none() {
        return None;
    }
    let root_s = root.unwrap();
    let cmd_s = command.unwrap();
    let mut args: Vec<String> = Vec::new();
    let ghost ab = arg_bytes.deep_view();
    let mut k: usize = 0;
    while k < arg_bytes.len()
        invariant
            k <= arg_bytes@.len(),
            ab == arg_bytes.deep_view(),
            ab.len() == arg_bytes@.len(),
            spec_decode_frame(b@) == Some((root_bytes@, cmd_bytes@, ab)),
            valid_utf8(root_bytes@),
            valid_utf8(cmd_bytes@),
            root_s@ == decode_utf8(root_bytes@),
            cmd_s@ == decode_utf8(cmd_bytes@),
            forall|j: int| 0 <= j < k ==> valid_utf8(#[trigger] ab[j]),
            args.deep_view() =~= ab.take(k as int).map_values(|s: Seq<u8>| decode_utf8(s)),
        decreases arg_bytes@.len() - k,
    {
        let ghost prev = args.deep_view();
        proof {
            assert(ab[k as int] =~= arg_bytes@[k as int]@);
        }
        let a = string_from_utf8(&arg_bytes[k]);
        match a {
            None => {
                proof {
                    assert(!valid_utf8(ab[k as int]));
                    let t = spec_decode_frame(b@).unwrap();
                    assert(t.2 == ab);
                    assert(!(forall|j: int| 0 <= j < t.2.len() ==> valid_utf8(#[trigger] t.2[j])))
                        by {
                        assert(0 <= k < t.2.len() && !valid_utf8(t.2[k as int]));
                    }
                    assert(spec_decode_project(b@) is None);
                }
                return None;
            },
            Some(s) => {
                proof {
                    assert(s@ == decode_utf8(ab[k as int]));
                }
                args.push(s);
                proof {
                    assert(args.deep_view() =~~= prev.push(decode_utf8(ab[k as int])));
                    assert(ab.take(k + 1 as int) =~= ab.take(k as int).push(ab[k as int]));
                    assert(ab.take(k + 1 as int).map_values(|s: Seq<u8>| decode_utf8(s)) =~= ab.take(
                        k as int,
                    ).map_values(|s: Seq<u8>| decode_utf8(s)).push(decode_utf8(ab[k as int])));
                }
            },
        }
        k += 1;
    }
    assert(ab.take(ab.len() as int) =~= ab);
    let p = Project { root: root_s, command: cmd_s, args };
    proof {
        let expect = spec_decode_project(b@).unwrap();
        assert(p@.args =~= expect.args);
        assert(p@ =~= expect);
    }
    Some(p)
}

proof fn lemma_unescape_of_escaped(s: Seq<u8>, rest: Seq<u8>)
    ensures
        spec_unescape(escape_bytes(s) + seq![QUOTE] + rest) == Some(
            (s, (escape_bytes(s).len() + 1) as nat),
        ),
    decreases s.len(),
{
    let be = escape_bytes(s);
    let b = be + seq![QUOTE] + rest;
    if s.len() == 0 {
        assert(b[0] == QUOTE);
        assert(spec_unescape(b) == Some((Seq::<u8>::empty(), 1nat)));
        assert(s =~= Seq::<u8>::empty());
    } else {
        let c = s[0];
        let eb = escape_byte(c);
        let tail = escape_bytes(s.drop_first());
        assert(be == eb + tail);
        let k = eb.len() as int;
        assert(forall|j: int| 0 <= j < k ==> b[j] == eb[j]);
        assert(b.skip(k) =~= tail + seq![QUOTE] + rest);
        lemma_unescape_of_escaped(s.drop_first(), rest);
        assert(seq![c] + s.drop_first() =~= s);
        if c == QUOTE || c == BSLASH || has_short_escape(c) {
            assert(eb.len() == 2);
            assert(b[0] == BSLASH && short_unescape(b[1]) == Some(c));
            assert(b.len() >= 2);
            assert(spec_unescape(b) == Some((s, (be.len() + 1) as nat)));
        } else if c < 0x20 {
            assert(eb =~= seq![BSLASH, 0x75u8, 0x30u8, 0x30u8, hex_digit(c / 16), hex_digit(c % 16)]);
            assert(b[0] == BSLASH && b[1] == 0x75 && b[2] == 0x30 && b[3] == 0x30);
            assert(short_unescape(0x75u8) is None);
            assert(c / 16 < 2 && c % 16 < 16);
            assert(is_hex_lower(hex_digit(c / 16)));
            assert(is_hex_lower(hex_digit(c % 16)));
            assert(hex_val(hex_digit(c / 16)) == c / 16);
            assert(hex_val(hex_digit(c % 16)) == c % 16);
            assert(c == (c / 16) * 16 + (c % 16)) by (nonlinear_arith);
            assert((hex_val(b[4]) * 16 + hex_val(b[5])) as u8 == c);
            assert(b.len() >= 6);
            assert(spec_unescape(b) == Some((s, (be.len() + 1) as nat)));
        } else {
            assert(eb =~= seq![c]);
            assert(b[0] == c && c != QUOTE && c != BSLASH && !(c < 0x20));
            assert(spec_unescape(b) == Some((s, (be.len() + 1) as nat)));
        }
    }
}

proof fn lemma_parse_quoted_of(s: Seq<u8>, rest: Seq<u8>)
    ensures
        spec_parse_quoted(quoted(s) + rest) == Some((s, quoted(s).len() as nat)),
{
    let b = quoted(s) + rest;
    assert(b[0] == QUOTE);
    assert(b.skip(1) =~= escape_bytes(s) + seq![QUOTE] + rest);
    lemma_unescape_of_escaped(s, rest);
}

proof fn lemma_parse_args_items_of(xs: Seq<Seq<u8>>, rest: Seq<u8>)
    requires
        xs.len() > 0,
    ensures
        spec_parse_args_items(args_interior(xs) + seq![RBRACKET] + rest) == Some(
            (xs, (args_interior(xs).len() + 1) as nat),
        ),
    decreases xs.len(),
{
    let inter = args_interior(xs);
    let b = inter + seq![RBRACKET] + rest;
    if xs.len() == 1 {
        assert(inter == quoted(xs[0]));
        assert(b =~= quoted(xs[0]) + (seq![RBRACKET] + rest));
        lemma_parse_quoted_of(xs[0], seq![RBRACKET] + rest);
        let n = quoted(xs[0]).len() as int;
        assert(b[n] == RBRACKET);
        assert(n < b.len());
        assert(seq![xs[0]] =~= xs);
        assert(spec_parse_args_items(b) == Some((xs, (inter.len() + 1) as nat)));
    } else {
        assert(inter == quoted(xs[0]) + seq![COMMA] + args_interior(xs.drop_first()));
        let r2 = seq![COMMA] + args_interior(xs.drop_first()) + seq![RBRACKET] + rest;
        assert(b =~= quoted(xs[0]) + r2);
        lemma_parse_quoted_of(xs[0], r2);
        let n = quoted(xs[0]).len() as int;
        assert(b[n] == COMMA);
        assert(n < b.len());
        assert(b.skip(n + 1) =~= args_interior(xs.drop_first()) + seq![RBRACKET] + rest);
        lemma_parse_args_items_of(xs.drop_first(), rest);
        assert(seq![xs[0]] + xs.drop_first() =~= xs);
        assert(spec_parse_args_items(b) == Some((xs, (inter.len() + 1) as nat)));
    }
}

proof fn lemma_parse_args_of(xs: Seq<Seq<u8>>, rest: Seq<u8>)
    ensures
        spec_parse_args(args_interior(xs) + seq![RBRACKET] + rest) == Some(
            (xs, (args_interior(xs).len() + 1) as nat),
        ),
{
    let b = args_interior(xs) + seq![RBRACKET] + rest;
    if xs.len() == 0 {
        assert(args_interior(xs) =~= Seq::<u8>::empty());
        assert(b[0] == RBRACKET);
        assert(xs =~= Seq::<Seq<u8>>::empty());
    } else {
        assert(b[0] == quoted(xs[0])[0]);
        assert(b[0] == QUOTE);
        lemma_parse_args_items_of(xs, rest);
    }
}

/// Parsing a canonical frame gives back exactly the field bytes it framed.
#[verifier::rlimit(100)]
proof fn lemma_decode_frame_of(root: Seq<u8>, command: Seq<u8>, args: Seq<Seq<u8>>)
    ensures
        spec_decode_frame(frame_bytes(root, command, args)) == Some((root, command, args)),
{
    let b = frame_bytes(root, command, args);
    assert(key_root().is_prefix_of(b)) by {
        assert(b.take(8) =~= key_root());
        assert(key_root().len() <= b.len());
    }
    let rest1 = key_command() + quoted(command) + key_args() + args_interior(args) + seq![
        RBRACKET,
        RBRACE,
    ];
    assert(b.skip(8int) =~= quoted(root) + rest1);
    lemma_parse_quoted_of(root, rest1);
    let n1 = quoted(root).len();
    let p1 = 8 + n1;
    assert(spec_parse_quoted(b.skip(8int)) == Some((root, n1 as nat)));
    let rest2 = quoted(command) + key_args() + args_interior(args) + seq![RBRACKET, RBRACE];
    assert(b.skip(p1 as int) =~= key_command() + rest2);
    assert(key_command().is_prefix_of(b.skip(p1 as int))) by {
        assert((key_command() + rest2).take(11) =~= key_command());
    }
    assert(b.skip(p1 + 11 as int) =~= rest2);
    let rest3 = key_args() + args_interior(args) + seq![RBRACKET, RBRACE];
    assert(rest2 =~= quoted(command) + rest3);
    lemma_parse_quoted_of(command, rest3);
    let n2 = quoted(command).len();
    let p2 = p1 + 11 + n2;
    assert(b.skip(p2 as int) =~= rest3);
    assert(key_args().is_prefix_of(b.skip(p2 as int))) by {
        assert(rest3.take(9) =~= key_args());
    }
    assert(b.skip(p2 + 9 as int) =~= args_interior(args) + seq![RBRACKET] + seq![RBRACE]);
    lemma_parse_args_of(args, seq![RBRACE]);
    let n3 = args_interior(args).len() + 1;
    let p3 = p2 + 9 + n3;
    assert(b[p3 as int] == RBRACE);
    assert(p3 + 1 == b.len());
}

/// Round trip: decoding the canonical frame of any descriptor yields that
/// descriptor. Together with `encode_project` and `decode_project`, whose
/// contracts mirror `spec_encode_project` and `spec_decode_project` exactly,
/// a handshake sent by the connecting side is always accepted and
/// reconstructed unchanged by the listening side.
pub proof fn lemma_codec_round_trip(p: ProjectView)
    ensures
        spec_decode_project(spec_encode_project(p)) == Some(p),
{
    broadcast use vstd::utf8::encode_utf8_valid_utf8;
    broadcast use vstd::utf8::encode_utf8_decode_utf8;

    let r = encode_utf8(p.root);
    let c = encode_utf8(p.command);
    let a = p.args.map_values(|s: Seq<char>| encode_utf8(s));
    lemma_decode_frame_of(r, c, a);
    assert(forall|i: int| 0 <= i < a.len() ==> valid_utf8(#[trigger] a[i])) by {
        assert(forall|i: int|
            0 <= i < a.len() ==> a[i] == encode_utf8(#[trigger] p.args[i]));
    }
    let q = spec_decode_project(spec_encode_project(p)).unwrap();
    assert(q.root == p.root);
    assert(q.command == p.command);
    assert(q.args =~= p.args) by {
        assert(forall|i: int|
            0 <= i < a.len() ==> a.map_values(|s: Seq<u8>| decode_utf8(s))[i] == decode_utf8(
                #[trigger] a[i],
            ));
    }
    assert(q == p);
}

proof fn lemma_unescape_sound(b: Seq<u8>)
    ensures
        spec_unescape(b) matches Some((s, n)) ==> n <= b.len() && b.take(n as int)
            == escape_bytes(s) + seq![QUOTE],
    decreases b.len(),
{
    if spec_unescape(b) is Some {
        let s = spec_unescape(b).unwrap().0;
        let n = spec_unescape(b).unwrap().1;
        if b[0] == QUOTE {
            assert(b.take(1) =~= seq![QUOTE]);
            assert(escape_bytes(s) + seq![QUOTE] =~= seq![QUOTE]);
        } else if b[0] == BSLASH {
            match short_unescape(b[1]) {
                Some(c) => {
                    let inner = spec_unescape(b.skip(2)).unwrap();
                    lemma_unescape_sound(b.skip(2));
                    assert(b.skip(2).take(inner.1 as int) == escape_bytes(inner.0) + seq![QUOTE]);
                    assert(s == seq![c] + inner.0);
                    assert(s[0] == c && s.drop_first() =~= inner.0);
                    assert(escape_byte(c) =~= seq![BSLASH, b[1]]);
                    assert(b.take(n as int) =~= b.take(2) + b.skip(2).take(inner.1 as int));
                    assert(b.take(2) =~= seq![BSLASH, b[1]]);
                    assert(escape_byte(s[0]) + (escape_bytes(s.drop_first()) + seq![QUOTE])
                        =~= (escape_byte(s[0]) + escape_bytes(s.drop_first())) + seq![QUOTE]);
                },
                None => {
                    let c = (hex_val(b[4]) * 16 + hex_val(b[5])) as u8;
                    let inner = spec_unescape(b.skip(6)).unwrap();
                    lemma_unescape_sound(b.skip(6));
                    assert(s == seq![c] + inner.0);
                    assert(s[0] == c && s.drop_first() =~= inner.0);
                    vstd::arithmetic::div_mod::lemma_fundamental_div_mod_converse(
                        c as int,
                        16,
                        hex_val(b[4]) as int,
                        hex_val(b[5]) as int,
                    );
                    assert(c / 16 == hex_val(b[4]) && c % 16 == hex_val(b[5]));
                    assert(hex_digit(hex_val(b[4])) == b[4]);
                    assert(hex_digit(hex_val(b[5])) == b[5]);
                    assert(escape_byte(c) =~= seq![BSLASH, 0x75u8, 0x30u8, 0x30u8, b[4], b[5]]);
                    assert(b.take(n as int) =~= b.take(6) + b.skip(6).take(inner.1 as int));
                    assert(b.take(6) =~= seq![BSLASH, 0x75u8, 0x30u8, 0x30u8, b[4], b[5]]);
                    assert(escape_byte(s[0]) + (escape_bytes(s.drop_first()) + seq![QUOTE])
                        =~= (escape_byte(s[0]) + escape_bytes(s.drop_first())) + seq![QUOTE]);
                },
            }
        } else {
            let inner = spec_unescape(b.skip(1)).unwrap();
            lemma_unescape_sound(b.skip(1));
            assert(s == seq![b[0]] + inner.0);
            assert(s[0] == b[0] && s.drop_first() =~= inner.0);
            assert(escape_byte(b[0]) =~= seq![b[0]]);
            assert(b.take(n as int) =~= b.take(1) + b.skip(1).take(inner.1 as int));
            assert(b.take(1) =~= seq![b[0]]);
            assert(escape_byte(s[0]) + (escape_bytes(s.drop_first()) + seq![QUOTE])
                =~= (escape_byte(s[0]) + escape_bytes(s.drop_first())) + seq![QUOTE]);
        }
    }
}

proof fn lemma_parse_quoted_sound(b: Seq<u8>)
    ensures
        spec_parse_quoted(b) matches Some((s, n)) ==> 2 <= n <= b.len() && b.take(n as int)
            == quoted(s),
{
    if spec_parse_quoted(b) is Some {
        let s = spec_parse_quoted(b).unwrap().0;
        let n = spec_parse_quoted(b).unwrap().1;
        let inner = spec_unescape(b.skip(1)).unwrap();
        lemma_unescape_sound(b.skip(1));
        assert(b.take(n as int) =~= b.take(1) + b.skip(1).take(inner.1 as int));
        assert(b.take(1) =~= seq![QUOTE]);
        assert(seq![QUOTE] + (escape_bytes(s) + seq![QUOTE]) =~= quoted(s));
    }
}

proof fn lemma_parse_args_items_sound(b: Seq<u8>)
    ensures
        spec_parse_args_items(b) matches Some((ss, m)) ==> ss.len() > 0 && m <= b.len() && b.take(
            m as int,
        ) == args_interior(ss) + seq![RBRACKET],
    decreases b.len(),
{
    if spec_parse_args_items(b) is Some {
        let ss = spec_parse_args_items(b).unwrap().0;
        let m = spec_parse_args_items(b).unwrap().1;
        let q = spec_parse_quoted(b).unwrap();
        let s = q.0;
        let n = q.1;
        lemma_parse_quoted_sound(b);
        if b[n as int] == RBRACKET {
            assert(ss == seq![s]);
            assert(args_interior(ss) == quoted(s));
            assert(b.take(m as int) =~= b.take(n as int) + seq![b[n as int]]);
            assert(quoted(s) + seq![RBRACKET] =~= args_interior(ss) + seq![RBRACKET]);
        } else {
            let inner = spec_parse_args_items(b.skip(n + 1 as int)).unwrap();
            lemma_parse_args_items_sound(b.skip(n + 1 as int));
            assert(ss == seq![s] + inner.0);
            assert(ss.len() > 1);
            assert(ss[0] == s && ss.drop_first() =~= inner.0);
            assert(args_interior(ss) == quoted(ss[0]) + seq![COMMA] + args_interior(
                ss.drop_first(),
            ));
            assert(b.take(m as int) =~= b.take(n as int) + seq![b[n as int]] + b.skip(
                n + 1 as int,
            ).take(inner.1 as int));
            assert(b.take(m as int) =~= quoted(s) + seq![COMMA] + (args_interior(inner.0) + seq![
                RBRACKET,
            ]));
            assert(quoted(s) + seq![COMMA] + (args_interior(inner.0) + seq![RBRACKET])
                =~= (quoted(s) + seq![COMMA] + args_interior(inner.0)) + seq![RBRACKET]);
        }
    }
}

proof fn lemma_parse_args_sound(b: Seq<u8>)
    ensures
        spec_parse_args(b) matches Some((ss, m)) ==> 1 <= m <= b.len() && b.take(m as int)
            == args_interior(ss) + seq![RBRACKET],
{
    if spec_parse_args(b) is Some {
        let ss = spec_parse_args(b).unwrap().0;
        let m = spec_parse_args(b).unwrap().1;
        if b[0] == RBRACKET {
            assert(ss =~= Seq::<Seq<u8>>::empty());
            assert(args_interior(ss) =~= Seq::<u8>::empty());
            assert(b.take(1) =~= seq![RBRACKET]);
            assert(args_interior(ss) + seq![RBRACKET] =~= seq![RBRACKET]);
        } else {
            lemma_parse_args_items_sound(b);
        }
    }
}

/// A frame that parses is byte-for-byte the canonical frame of what it
/// parsed to: the codec accepts nothing but its own output.
#[verifier::rlimit(100)]
proof fn lemma_decode_frame_sound(b: Seq<u8>)
    ensures
        spec_decode_frame(b) matches Some((root, command, args)) ==> b == frame_bytes(
            root,
            command,
            args,
        ),
{
    if spec_decode_frame(b) is Some {
        let root = spec_decode_frame(b).unwrap().0;
        let command = spec_decode_frame(b).unwrap().1;
        let args = spec_decode_frame(b).unwrap().2;
        let q1 = spec_parse_quoted(b.skip(8int)).unwrap();
        let n1 = q1.1;
        let p1 = 8 + n1;
        lemma_parse_quoted_sound(b.skip(8int));
        let q2 = spec_parse_quoted(b.skip(p1 + 11 as int)).unwrap();
        let n2 = q2.1;
        let p2 = p1 + 11 + n2;
        lemma_parse_quoted_sound(b.skip(p1 + 11 as int));
        let q3 = spec_parse_args(b.skip(p2 + 9 as int)).unwrap();
        let n3 = q3.1;
        let p3 = p2 + 9 + n3;
        lemma_parse_args_sound(b.skip(p2 + 9 as int));
        assert(b.take(8int) =~= key_root());
        assert(b.skip(8int).take(n1 as int) == quoted(root));
        assert(b.skip(p1 as int).take(11int) =~= key_command());
        assert(b.skip(p1 + 11 as int).take(n2 as int) == quoted(command));
        assert(b.skip(p2 as int).take(9int) =~= key_args());
        assert(b.skip(p2 + 9 as int).take(n3 as int) == args_interior(args) + seq![RBRACKET]);
        assert(b[p3 as int] == RBRACE && p3 + 1 == b.len());
        assert(b =~= b.take(8int) + b.skip(8int).take(n1 as int) + b.skip(p1 as int).take(11int)
            + b.skip(p1 + 11 as int).take(n2 as int) + b.skip(p2 as int).take(9int) + b.skip(
            p2 + 9 as int,
        ).take(n3 as int) + seq![RBRACE]);
        assert(key_root() + quoted(root) + key_command() + quoted(command) + key_args() + (
        args_interior(args) + seq![RBRACKET]) + seq![RBRACE] =~= frame_bytes(
            root,
            command,
            args,
        ));
    }
}

/// Canonicity: a payload that decodes to a descriptor is exactly that
/// descriptor's canonical frame. With the round trip this pins the decoder
/// completely: it accepts `spec_encode_project(p)` for every `p`, returns
/// `p` for it, and rejects every other byte sequence.
pub proof fn lemma_decode_canonical(b: Seq<u8>)
    ensures
        spec_decode_project(b) matches Some(p) ==> b == spec_encode_project(p),
{
    broadcast use vstd::utf8::decode_utf8_encode_utf8;

    if spec_decode_project(b) is Some {
        let p = spec_decode_project(b).unwrap();
        let f = spec_decode_frame(b).unwrap();
        lemma_decode_frame_sound(b);
        assert(encode_utf8(p.root) == f.0);
        assert(encode_utf8(p.command) == f.1);
        assert(p.args.map_values(|s: Seq<char>| encode_utf8(s)) =~= f.2) by {
            assert(forall|i: int|
                0 <= i < f.2.len() ==> p.args[i] == decode_utf8(#[trigger] f.2[i]));
            assert(forall|i: int|
                0 <= i < f.2.len() ==> p.args.map_values(|s: Seq<char>| encode_utf8(s))[i]
                    == encode_utf8(decode_utf8(#[trigger] f.2[i])));
        };
    }
}

} // verus!

