//! Credential codec: the mapping between a stored record's raw attributes and
//! the external JSON credentials document, and the serializer for that
//! document. The serialized shape is pinned down exactly: field order is
//! `Version`, `AccessKeyId`, `SecretAccessKey`, then `SessionToken` and
//! `Expiration` only when present; absent optional fields are omitted from
//! the text entirely, never written as null.

use vstd::prelude::*;
use vstd::string::*;

verus! {

/// The external credential-process document: the JSON shape a cloud CLI
/// expects this tool to print on standard output.
pub struct Credentials {
    /// Fixed protocol version; always 1 for documents this tool emits.
    pub version: u8,
    pub access_key_id: String,
    pub secret_access_key: String,
    /// Never set for stored (long-lived) credentials.
    pub session_token: Option<String>,
    /// Never set for stored (long-lived) credentials.
    pub expiration: Option<String>,
}

/// Mathematical image of a `Credentials` document.
#[verifier::ext_equal]
pub struct CredentialsView {
    pub version: u8,
    pub access_key_id: Seq<char>,
    pub secret_access_key: Seq<char>,
    pub session_token: Option<Seq<char>>,
    pub expiration: Option<Seq<char>>,
}

/// The view of an optional owned text value.
pub open spec fn opt_text_view(o: Option<String>) -> Option<Seq<char>> {
    match o {
        Some(s) => Some(s@),
        None => None,
    }
}

impl View for Credentials {
    type V = CredentialsView;

    open spec fn view(&self) -> CredentialsView {
        CredentialsView {
            version: self.version,
            access_key_id: self.access_key_id@,
            secret_access_key: self.secret_access_key@,
            session_token: opt_text_view(self.session_token),
            expiration: opt_text_view(self.expiration),
        }
    }
}

/// What decoding a raw attribute record yields: the `account` attribute
/// becomes the access key id and the secret data becomes the secret key, each
/// degrading to empty text when the attribute is missing; the version is
/// fixed to 1 and the optional fields are never set.
pub open spec fn decoded(account: Option<Seq<char>>, secret_data: Option<Seq<char>>) -> CredentialsView {
    CredentialsView {
        version: 1,
        access_key_id: match account {
            Some(a) => a,
            None => Seq::empty(),
        },
        secret_access_key: match secret_data {
            Some(s) => s,
            None => Seq::empty(),
        },
        session_token: None,
        expiration: None,
    }
}

/// Builds the credentials document for one stored record's attributes.
/// Missing attributes degrade to empty strings rather than erroring, so a
/// well-formed document comes out for any matched record.
pub fn decode(account: Option<String>, secret_data: Option<String>) -> (c: Credentials)
    ensures
        c@ == decoded(opt_text_view(account), opt_text_view(secret_data)),
{
    let access_key_id = match account {
        Some(a) => a,
        None => String::new(),
    };
    let secret_access_key = match secret_data {
        Some(s) => s,
        None => String::new(),
    };
    let c = Credentials {
        version: 1,
        access_key_id,
        secret_access_key,
        session_token: None,
        expiration: None,
    };
    proof {
        assert(c@ =~= decoded(opt_text_view(account), opt_text_view(secret_data)));
    }
    c
}

/// The lower-case hexadecimal digit for a value below sixteen.
pub open spec fn hex_digit(n: nat) -> char {
    seq!['0', '1', '2', '3', '4', '5', '6', '7', '8', '9', 'a', 'b', 'c', 'd', 'e', 'f'][n as int]
}

/// One character of JSON string-body text: quote and backslash take a
/// backslash escape, the control characters with short escapes take those,
/// any other control character takes the four-digit `\u` form, and every
/// other character stands for itself.
pub open spec fn escape_char(c: char) -> Seq<char> {
    if c == '"' {
        seq!['\\', '"']
    } else if c == '\\' {
        seq!['\\', '\\']
    } else if c == '\u{8}' {
        seq!['\\', 'b']
    } else if c == '\t' {
        seq!['\\', 't']
    } else if c == '\n' {
        seq!['\\', 'n']
    } else if c == '\u{c}' {
        seq!['\\', 'f']
    } else if c == '\r' {
        seq!['\\', 'r']
    } else if (c as u32) < 32 {
        seq!['\\', 'u', '0', '0', hex_digit((c as u32 / 16) as nat), hex_digit((c as u32 % 16) as nat)]
    } else {
        seq![c]
    }
}

/// A string's body as it stands inside a JSON string literal.
pub open spec fn escaped(s: Seq<char>) -> Seq<char>
    decreases s.len(),
{
    if s.len() == 0 {
        Seq::empty()
    } else {
        escaped(s.drop_last()) + escape_char(s.last())
    }
}

/// A whole JSON string literal: the escaped body between double quotes.
pub open spec fn json_text(s: Seq<char>) -> Seq<char> {
    seq!['"'] + escaped(s) + seq!['"']
}

/// The decimal numeral of a natural number, most significant digit first.
pub open spec fn decimal(n: nat) -> Seq<char>
    decreases n,
{
    if n < 10 {
        seq![hex_digit(n)]
    } else {
        decimal(n / 10) + seq![hex_digit(n % 10)]
    }
}

/// The compact serialized form of a credentials document.
pub open spec fn json_compact(c: CredentialsView) -> Seq<char> {
    "{\"Version\":"@ + decimal(c.version as nat) + ",\"AccessKeyId\":"@ + json_text(c.access_key_id)
        + ",\"SecretAccessKey\":"@ + json_text(c.secret_access_key) + (match c.session_token {
        Some(t) => ",\"SessionToken\":"@ + json_text(t),
        None => Seq::<char>::empty(),
    }) + (match c.expiration {
        Some(t) => ",\"Expiration\":"@ + json_text(t),
        None => Seq::<char>::empty(),
    }) + "}"@
}

/// The pretty-printed serialized form: one field per line, two-space indent.
pub open spec fn json_pretty(c: CredentialsView) -> Seq<char> {
    "{\n  \"Version\": "@ + decimal(c.version as nat) + ",\n  \"AccessKeyId\": "@ + json_text(
        c.access_key_id,
    ) + ",\n  \"SecretAccessKey\": "@ + json_text(c.secret_access_key) + (match c.session_token {
        Some(t) => ",\n  \"SessionToken\": "@ + json_text(t),
        None => Seq::<char>::empty(),
    }) + (match c.expiration {
        Some(t) => ",\n  \"Expiration\": "@ + json_text(t),
        None => Seq::<char>::empty(),
    }) + "\n}"@
}

/// Relies on `String::push`: appends exactly the one character.
#[verifier::external_body]
fn push_char(out: &mut String, c: char)
    ensures
        final(out)@ == old(out)@.push(c),
{
    out.push(c);
}

/// The lower-case hexadecimal digit character for a value below sixteen.
fn hex_digit_char(n: u8) -> (c: char)
    requires
        n < 16,
    ensures
        c == hex_digit(n as nat),
{
    match n {
        0 => '0',
        1 => '1',
        2 => '2',
        3 => '3',
        4 => '4',
        5 => '5',
        6 => '6',
        7 => '7',
        8 => '8',
        9 => '9',
        10 => 'a',
        11 => 'b',
        12 => 'c',
        13 => 'd',
        14 => 'e',
        _ => 'f',
    }
}

/// Appends the escaped body of `s` to `out`.
fn append_escaped(out: &mut String, s: &str)
    ensures
        final(out)@ == old(out)@ + escaped(s@),
{
    let n = s.unicode_len();
    let mut i: usize = 0;
    while i < n
        invariant
            n == s@.len(),
            i <= n,
            out@ == old(out)@ + escaped(s@.take(i as int)),
        decreases n - i,
    {
        let c = s.get_char(i);
        let ghost prefix = out@;
        if c == '"' {
            push_char(out, '\\');
            push_char(out, '"');
        } else if c == '\\' {
            push_char(out, '\\');
            push_char(out, '\\');
        } else if c == '\u{8}' {
            push_char(out, '\\');
            push_char(out, 'b');
        } else if c == '\t' {
            push_char(out, '\\');
            push_char(out, 't');
        } else if c == '\n' {
            push_char(out, '\\');
            push_char(out, 'n');
        } else if c == '\u{c}' {
            push_char(out, '\\');
            push_char(out, 'f');
        } else if c == '\r' {
            push_char(out, '\\');
            push_char(out, 'r');
        } else if (c as u32) < 32 {
            let code = c as u32;
            push_char(out, '\\');
            push_char(out, 'u');
            push_char(out, '0');
            push_char(out, '0');
            push_char(out, hex_digit_char((code / 16) as u8));
            push_char(out, hex_digit_char((code % 16) as u8));
        } else {
            push_char(out, c);
        }
        proof {
            assert(s@.take(i + 1).drop_last() =~= s@.take(i as int));
            assert(s@.take(i + 1).last() == c);
            assert(out@ =~= prefix + escape_char(c));
            assert(out@ =~= old(out)@ + escaped(s@.take(i + 1)));
        }
        i += 1;
    }
    proof {
        assert(s@.take(n as int) =~= s@);
    }
}

/// Appends the JSON string literal for `s` to `out`.
fn append_json_text(out: &mut String, s: &str)
    ensures
        final(out)@ == old(out)@ + json_text(s@),
{
    push_char(out, '"');
    append_escaped(out, s);
    push_char(out, '"');
    proof {
        assert(final(out)@ =~= old(out)@ + json_text(s@));
    }
}

/// Appends the decimal numeral of `n` to `out`.
fn append_decimal_u8(out: &mut String, n: u8)
    ensures
        final(out)@ == old(out)@ + decimal(n as nat),
{
    if n >= 100 {
        push_char(out, hex_digit_char(n / 100));
        push_char(out, hex_digit_char((n / 10) % 10));
        push_char(out, hex_digit_char(n % 10));
        proof {
            assert(n as nat / 10 / 10 == n as nat / 100) by (nonlinear_arith);
            assert(n as nat / 10 % 10 == ((n / 10) % 10) as nat);
            assert(n as nat / 100 < 10);
            assert(decimal(n as nat / 100) =~= seq![hex_digit(n as nat / 100)]);
            assert(10 <= n as nat / 10);
            assert(decimal(n as nat / 10) =~= decimal(n as nat / 10 / 10) + seq![
                hex_digit(n as nat / 10 % 10),
            ]);
            assert(final(out)@ =~= old(out)@ + decimal(n as nat));
        }
    } else if n >= 10 {
        push_char(out, hex_digit_char(n / 10));
        push_char(out, hex_digit_char(n % 10));
        proof {
            assert(n as nat / 10 < 10);
            assert(decimal(n as nat / 10) =~= seq![hex_digit(n as nat / 10)]);
            assert(decimal(n as nat) =~= decimal(n as nat / 10) + seq![hex_digit(n as nat % 10)]);
            assert(final(out)@ =~= old(out)@ + decimal(n as nat));
        }
    } else {
        push_char(out, hex_digit_char(n));
        proof {
            assert(final(out)@ =~= old(out)@ + decimal(n as nat));
        }
    }
}

/// Serializes the document in the compact external form: fields in the fixed
/// order `Version`, `AccessKeyId`, `SecretAccessKey`, then `SessionToken` and
/// `Expiration` only when present, with absent optional fields omitted.
pub fn encode_to_json(c: &Credentials) -> (s: String)
    ensures
        s@ == json_compact(c@),
{
    let mut out = String::new();
    out.append("{\"Version\":");
    append_decimal_u8(&mut out, c.version);
    out.append(",\"AccessKeyId\":");
    append_json_text(&mut out, c.access_key_id.as_str());
    out.append(",\"SecretAccessKey\":");
    append_json_text(&mut out, c.secret_access_key.as_str());
    match &c.session_token {
        Some(t) => {
            out.append(",\"SessionToken\":");
            append_json_text(&mut out, t.as_str());
        },
        None => {},
    }
    match &c.expiration {
        Some(t) => {
            out.append(",\"Expiration\":");
            append_json_text(&mut out, t.as_str());
        },
        None => {},
    }
    out.append("}");
    proof {
        assert(out@ =~= json_compact(c@));
    }
    out
}

/// Serializes the document pretty-printed, as the fetch command prints it:
/// the same fields and omission rule as the compact form, one field per line
/// with a two-space indent.
pub fn encode_to_json_pretty(c: &Credentials) -> (s: String)
    ensures
        s@ == json_pretty(c@),
{
    let mut out = String::new();
    out.append("{\n  \"Version\": ");
    append_decimal_u8(&mut out, c.version);
    out.append(",\n  \"AccessKeyId\": ");
    append_json_text(&mut out, c.access_key_id.as_str());
    out.append(",\n  \"SecretAccessKey\": ");
    append_json_text(&mut out, c.secret_access_key.as_str());
    match &c.session_token {
        Some(t) => {
            out.append(",\n  \"SessionToken\": ");
            append_json_text(&mut out, t.as_str());
        },
        None => {},
    }
    match &c.expiration {
        Some(t) => {
            out.append(",\n  \"Expiration\": ");
            append_json_text(&mut out, t.as_str());
        },
        None => {},
    }
    out.append("\n}");
    proof {
        assert(out@ =~= json_pretty(c@));
    }
    out
}

/// `needle` occurs as a contiguous run somewhere inside `text`.
pub open spec fn has_substring(text: Seq<char>, needle: Seq<char>) -> bool {
    exists|i: int|
        0 <= i <= text.len() - needle.len() && #[trigger] text.subrange(i, i + needle.len() as int)
            == needle
}

/// Text the encoder copies verbatim: no character of it needs an escape.
pub open spec fn plain_text(s: Seq<char>) -> bool {
    forall|i: int| 0 <= i < s.len() ==> escape_char(#[trigger] s[i]) == seq![s[i]]
}

/// Plain text stands for itself in a JSON string body.
pub proof fn lemma_escaped_plain(s: Seq<char>)
    requires
        plain_text(s),
    ensures
        escaped(s) == s,
    decreases s.len(),
{
    if s.len() > 0 {
        assert(forall|i: int|
            0 <= i < s.drop_last().len() ==> #[trigger] s.drop_last()[i] == s[i]);
        lemma_escaped_plain(s.drop_last());
        assert(escape_char(s.last()) == seq![s.last()]);
        assert(escaped(s) =~= s);
    } else {
        assert(escaped(s) =~= s);
    }
}

/// No occurrence can start anywhere in text that never holds the needle's
/// first character.
proof fn lemma_no_substring_first_absent(text: Seq<char>, needle: Seq<char>)
    requires
        needle.len() > 0,
        !text.contains(needle[0]),
    ensures
        !has_substring(text, needle),
{
    assert forall|i: int| 0 <= i <= text.len() - needle.len() implies #[trigger] text.subrange(
        i,
        i + needle.len() as int,
    ) != needle by {
        if text.subrange(i, i + needle.len() as int) == needle {
            assert(text.subrange(i, i + needle.len() as int)[0] == text[i]);
            assert(text[i] == needle[0]);
            assert(text.contains(needle[0]));
        }
    }
}

/// Appending a piece creates no occurrence when neither part holds one and
/// the seam is barred: the needle does not hold the character on one side of
/// the boundary.
proof fn lemma_concat_no_substring(a: Seq<char>, b: Seq<char>, needle: Seq<char>)
    requires
        needle.len() > 0,
        !has_substring(a, needle),
        !has_substring(b, needle),
        b.len() == 0 || a.len() == 0 || !needle.contains(b[0]) || !needle.contains(a.last()),
    ensures
        !has_substring(a + b, needle),
{
    let t = a + b;
    let l = needle.len() as int;
    assert forall|i: int| 0 <= i <= t.len() - l implies #[trigger] t.subrange(i, i + l)
        != needle by {
        if t.subrange(i, i + l) == needle {
            if i + l <= a.len() {
                assert(a.subrange(i, i + l) =~= t.subrange(i, i + l));
                assert(has_substring(a, needle));
            } else if i >= a.len() {
                assert(b.subrange(i - a.len(), i - a.len() + l) =~= t.subrange(i, i + l));
                assert(has_substring(b, needle));
            } else {
                assert(b.len() > 0 && a.len() > 0);
                assert(t.subrange(i, i + l)[a.len() - i] == t[a.len() as int]);
                assert(needle[a.len() - i] == b[0]);
                assert(needle.contains(b[0]));
                assert(t.subrange(i, i + l)[a.len() - 1 - i] == t[a.len() - 1]);
                assert(needle[a.len() - 1 - i] == a.last());
                assert(needle.contains(a.last()));
            }
        }
    }
}

/// A JSON string literal holds no occurrence when its body holds none and the
/// needle has no double quote.
proof fn lemma_json_text_no_marker(x: Seq<char>, needle: Seq<char>)
    requires
        needle.len() > 1,
        !needle.contains('"'),
        !has_substring(escaped(x), needle),
    ensures
        !has_substring(json_text(x), needle),
{
    let q = seq!['"'];
    assert(!has_substring(q, needle));
    lemma_concat_no_substring(q, escaped(x), needle);
    lemma_concat_no_substring(q + escaped(x), q, needle);
    assert(json_text(x) == q + escaped(x) + q);
}

/// A decimal numeral below one thousand is at most three characters.
proof fn lemma_decimal_len(n: nat)
    requires
        n < 1000,
    ensures
        decimal(n).len() == if n < 10 {
            1nat
        } else if n < 100 {
            2nat
        } else {
            3nat
        },
    decreases n,
{
    if n >= 10 {
        lemma_decimal_len(n / 10);
    }
}

/// No occurrence survives assembling a credentials document out of pieces
/// that hold none, when the needle has no double quote, is longer than the
/// version numeral, and cannot straddle any seam: the needle misses the last
/// character of the opening piece and the first character of every following
/// literal piece. The optional pieces stand for a whole labeled field or for
/// nothing.
proof fn lemma_framed_document_no_marker(
    l1: Seq<char>,
    version: nat,
    l2: Seq<char>,
    ak: Seq<char>,
    l3: Seq<char>,
    sk: Seq<char>,
    session: Seq<char>,
    expiration: Seq<char>,
    r: Seq<char>,
    needle: Seq<char>,
)
    requires
        needle.len() > 3,
        version < 1000,
        !needle.contains('"'),
        l1.len() > 0 && !needle.contains(l1.last()) && !has_substring(l1, needle),
        l2.len() > 0 && !needle.contains(l2[0]) && !has_substring(l2, needle),
        !has_substring(escaped(ak), needle),
        l3.len() > 0 && !needle.contains(l3[0]) && !has_substring(l3, needle),
        !has_substring(escaped(sk), needle),
        session.len() == 0 || (!needle.contains(session[0]) && !has_substring(session, needle)),
        expiration.len() == 0 || (!needle.contains(expiration[0]) && !has_substring(
            expiration,
            needle,
        )),
        r.len() > 0 && !needle.contains(r[0]) && !has_substring(r, needle),
    ensures
        !has_substring(
            l1 + decimal(version) + l2 + json_text(ak) + l3 + json_text(sk) + session + expiration
                + r,
            needle,
        ),
{
    let d = decimal(version);
    lemma_decimal_len(version);
    assert(!has_substring(d, needle));
    let jak = json_text(ak);
    let jsk = json_text(sk);
    lemma_json_text_no_marker(ak, needle);
    lemma_json_text_no_marker(sk, needle);
    assert(jak[0] == '"' && jsk[0] == '"');
    let t1 = l1 + d;
    lemma_concat_no_substring(l1, d, needle);
    let t2 = t1 + l2;
    lemma_concat_no_substring(t1, l2, needle);
    let t3 = t2 + jak;
    lemma_concat_no_substring(t2, jak, needle);
    let t4 = t3 + l3;
    lemma_concat_no_substring(t3, l3, needle);
    let t5 = t4 + jsk;
    lemma_concat_no_substring(t4, jsk, needle);
    let t6 = t5 + session;
    if session.len() == 0 {
        assert(t6 =~= t5);
    } else {
        lemma_concat_no_substring(t5, session, needle);
    }
    let t7 = t6 + expiration;
    if expiration.len() == 0 {
        assert(t7 =~= t6);
    } else {
        lemma_concat_no_substring(t6, expiration, needle);
    }
    lemma_concat_no_substring(t7, r, needle);
}

/// Omission law for the session token: in both serialized forms the text
/// holds the marker `SessionToken` exactly when the field is set. Stated for
/// documents whose text fields are plain (no character the encoder escapes)
/// and do not themselves spell the marker.
pub proof fn lemma_session_token_omission(c: CredentialsView)
    requires
        plain_text(c.access_key_id),
        plain_text(c.secret_access_key),
        !has_substring(c.access_key_id, "SessionToken"@),
        !has_substring(c.secret_access_key, "SessionToken"@),
        match c.expiration {
            Some(t) => plain_text(t) && !has_substring(t, "SessionToken"@),
            None => true,
        },
    ensures
        has_substring(json_compact(c), "SessionToken"@) <==> c.session_token is Some,
        has_substring(json_pretty(c), "SessionToken"@) <==> c.session_token is Some,
{
    let needle = "SessionToken"@;
    reveal_strlit("SessionToken");
    assert(needle.len() == 12);
    lemma_escaped_plain(c.access_key_id);
    lemma_escaped_plain(c.secret_access_key);
    reveal_strlit("{\"Version\":");
    reveal_strlit(",\"AccessKeyId\":");
    reveal_strlit(",\"SecretAccessKey\":");
    reveal_strlit(",\"SessionToken\":");
    reveal_strlit(",\"Expiration\":");
    reveal_strlit("}");
    reveal_strlit("{\n  \"Version\": ");
    reveal_strlit(",\n  \"AccessKeyId\": ");
    reveal_strlit(",\n  \"SecretAccessKey\": ");
    reveal_strlit(",\n  \"SessionToken\": ");
    reveal_strlit(",\n  \"Expiration\": ");
    reveal_strlit("\n}");
    match c.session_token {
        Some(tok) => {
            let pc = "{\"Version\":"@ + decimal(c.version as nat) + ",\"AccessKeyId\":"@
                + json_text(c.access_key_id) + ",\"SecretAccessKey\":"@ + json_text(
                c.secret_access_key,
            );
            let lsc = ",\"SessionToken\":"@;
            assert(lsc.subrange(2, 2 + needle.len() as int) =~= needle);
            assert(json_compact(c).subrange(pc.len() as int, (pc.len() + lsc.len()) as int) =~= lsc);
            lemma_marker_at_offset(json_compact(c), pc, lsc, needle, 2);
            let pp = "{\n  \"Version\": "@ + decimal(c.version as nat) + ",\n  \"AccessKeyId\": "@
                + json_text(c.access_key_id) + ",\n  \"SecretAccessKey\": "@ + json_text(
                c.secret_access_key,
            );
            let lsp = ",\n  \"SessionToken\": "@;
            assert(lsp.subrange(5, 5 + needle.len() as int) =~= needle);
            assert(json_pretty(c).subrange(pp.len() as int, (pp.len() + lsp.len()) as int) =~= lsp);
            lemma_marker_at_offset(json_pretty(c), pp, lsp, needle, 5);
        },
        None => {
            assert(!needle.contains('"') && !needle.contains(',') && !needle.contains(':')
                && !needle.contains('}') && !needle.contains('{') && !needle.contains(' ')
                && !needle.contains('\n'));
            let ec = match c.expiration {
                Some(t) => ",\"Expiration\":"@ + json_text(t),
                None => Seq::<char>::empty(),
            };
            match c.expiration {
                Some(t) => {
                    lemma_escaped_plain(t);
                    assert(!",\"Expiration\":"@.contains(needle[0]));
                    lemma_no_substring_first_absent(",\"Expiration\":"@, needle);
                    lemma_json_text_no_marker(t, needle);
                    lemma_concat_no_substring(",\"Expiration\":"@, json_text(t), needle);
                    assert(ec[0] == ',');
                },
                None => {},
            }
            assert(!has_substring("{\"Version\":"@, needle));
            assert(!",\"AccessKeyId\":"@.contains(needle[0]));
            lemma_no_substring_first_absent(",\"AccessKeyId\":"@, needle);
            lemma_secret_access_key_literal_no_session_marker();
            assert(!has_substring("}"@, needle));
            lemma_framed_document_no_marker(
                "{\"Version\":"@,
                c.version as nat,
                ",\"AccessKeyId\":"@,
                c.access_key_id,
                ",\"SecretAccessKey\":"@,
                c.secret_access_key,
                Seq::<char>::empty(),
                ec,
                "}"@,
                needle,
            );
            assert(json_compact(c) == "{\"Version\":"@ + decimal(c.version as nat)
                + ",\"AccessKeyId\":"@ + json_text(c.access_key_id) + ",\"SecretAccessKey\":"@
                + json_text(c.secret_access_key) + Seq::<char>::empty() + ec + "}"@);
            let ep = match c.expiration {
                Some(t) => ",\n  \"Expiration\": "@ + json_text(t),
                None => Seq::<char>::empty(),
            };
            match c.expiration {
                Some(t) => {
                    assert(!",\n  \"Expiration\": "@.contains(needle[0]));
                    lemma_no_substring_first_absent(",\n  \"Expiration\": "@, needle);
                    lemma_concat_no_substring(",\n  \"Expiration\": "@, json_text(t), needle);
                    assert(ep[0] == ',');
                },
                None => {},
            }
            assert(!"{\n  \"Version\": "@.contains(needle[0]));
            lemma_no_substring_first_absent("{\n  \"Version\": "@, needle);
            assert(!",\n  \"AccessKeyId\": "@.contains(needle[0]));
            lemma_no_substring_first_absent(",\n  \"AccessKeyId\": "@, needle);
            lemma_pretty_secret_access_key_literal_no_session_marker();
            assert(!has_substring("\n}"@, needle));
            lemma_framed_document_no_marker(
                "{\n  \"Version\": "@,
                c.version as nat,
                ",\n  \"AccessKeyId\": "@,
                c.access_key_id,
                ",\n  \"SecretAccessKey\": "@,
                c.secret_access_key,
                Seq::<char>::empty(),
                ep,
                "\n}"@,
                needle,
            );
            assert(json_pretty(c) == "{\n  \"Version\": "@ + decimal(c.version as nat)
                + ",\n  \"AccessKeyId\": "@ + json_text(c.access_key_id)
                + ",\n  \"SecretAccessKey\": "@ + json_text(c.secret_access_key)
                + Seq::<char>::empty() + ep + "\n}"@);
        },
    }
}

/// Omission law for the expiration field: in both serialized forms the text
/// holds the marker `Expiration` exactly when the field is set. Stated for
/// documents whose text fields are plain (no character the encoder escapes)
/// and do not themselves spell the marker.
pub proof fn lemma_expiration_omission(c: CredentialsView)
    requires
        plain_text(c.access_key_id),
        plain_text(c.secret_access_key),
        !has_substring(c.access_key_id, "Expiration"@),
        !has_substring(c.secret_access_key, "Expiration"@),
        match c.session_token {
            Some(t) => plain_text(t) && !has_substring(t, "Expiration"@),
            None => true,
        },
    ensures
        has_substring(json_compact(c), "Expiration"@) <==> c.expiration is Some,
        has_substring(json_pretty(c), "Expiration"@) <==> c.expiration is Some,
{
    let needle = "Expiration"@;
    reveal_strlit("Expiration");
    assert(needle.len() == 10);
    lemma_escaped_plain(c.access_key_id);
    lemma_escaped_plain(c.secret_access_key);
    reveal_strlit("{\"Version\":");
    reveal_strlit(",\"AccessKeyId\":");
    reveal_strlit(",\"SecretAccessKey\":");
    reveal_strlit(",\"SessionToken\":");
    reveal_strlit(",\"Expiration\":");
    reveal_strlit("}");
    reveal_strlit("{\n  \"Version\": ");
    reveal_strlit(",\n  \"AccessKeyId\": ");
    reveal_strlit(",\n  \"SecretAccessKey\": ");
    reveal_strlit(",\n  \"SessionToken\": ");
    reveal_strlit(",\n  \"Expiration\": ");
    reveal_strlit("\n}");
    let sc = match c.session_token {
        Some(t) => ",\"SessionToken\":"@ + json_text(t),
        None => Seq::<char>::empty(),
    };
    let sp = match c.session_token {
        Some(t) => ",\n  \"SessionToken\": "@ + json_text(t),
        None => Seq::<char>::empty(),
    };
    match c.expiration {
        Some(exp) => {
            let pc = "{\"Version\":"@ + decimal(c.version as nat) + ",\"AccessKeyId\":"@
                + json_text(c.access_key_id) + ",\"SecretAccessKey\":"@ + json_text(
                c.secret_access_key,
            ) + sc;
            let lxc = ",\"Expiration\":"@;
            assert(lxc.subrange(2, 2 + needle.len() as int) =~= needle);
            assert(json_compact(c).subrange(pc.len() as int, (pc.len() + lxc.len()) as int)
                =~= lxc);
            lemma_marker_at_offset(json_compact(c), pc, lxc, needle, 2);
            let pp = "{\n  \"Version\": "@ + decimal(c.version as nat) + ",\n  \"AccessKeyId\": "@
                + json_text(c.access_key_id) + ",\n  \"SecretAccessKey\": "@ + json_text(
                c.secret_access_key,
            ) + sp;
            let lxp = ",\n  \"Expiration\": "@;
            assert(lxp.subrange(5, 5 + needle.len() as int) =~= needle);
            assert(json_pretty(c).subrange(pp.len() as int, (pp.len() + lxp.len()) as int)
                =~= lxp);
            lemma_marker_at_offset(json_pretty(c), pp, lxp, needle, 5);
        },
        None => {
            assert(!needle.contains('"') && !needle.contains(',') && !needle.contains(':')
                && !needle.contains('}') && !needle.contains('{') && !needle.contains(' ')
                && !needle.contains('\n'));
            match c.session_token {
                Some(t) => {
                    lemma_escaped_plain(t);
                    assert(!",\"SessionToken\":"@.contains(needle[0]));
                    lemma_no_substring_first_absent(",\"SessionToken\":"@, needle);
                    lemma_json_text_no_marker(t, needle);
                    lemma_concat_no_substring(",\"SessionToken\":"@, json_text(t), needle);
                    assert(sc[0] == ',');
                    assert(!",\n  \"SessionToken\": "@.contains(needle[0]));
                    lemma_no_substring_first_absent(",\n  \"SessionToken\": "@, needle);
                    lemma_concat_no_substring(",\n  \"SessionToken\": "@, json_text(t), needle);
                    assert(sp[0] == ',');
                },
                None => {},
            }
            assert(!"{\"Version\":"@.contains(needle[0]));
            lemma_no_substring_first_absent("{\"Version\":"@, needle);
            assert(!",\"AccessKeyId\":"@.contains(needle[0]));
            lemma_no_substring_first_absent(",\"AccessKeyId\":"@, needle);
            assert(!",\"SecretAccessKey\":"@.contains(needle[0]));
            lemma_no_substring_first_absent(",\"SecretAccessKey\":"@, needle);
            assert(!has_substring("}"@, needle));
            lemma_framed_document_no_marker(
                "{\"Version\":"@,
                c.version as nat,
                ",\"AccessKeyId\":"@,
                c.access_key_id,
                ",\"SecretAccessKey\":"@,
                c.secret_access_key,
                sc,
                Seq::<char>::empty(),
                "}"@,
                needle,
            );
            assert(json_compact(c) == "{\"Version\":"@ + decimal(c.version as nat)
                + ",\"AccessKeyId\":"@ + json_text(c.access_key_id) + ",\"SecretAccessKey\":"@
                + json_text(c.secret_access_key) + sc + Seq::<char>::empty() + "}"@);
            assert(!"{\n  \"Version\": "@.contains(needle[0]));
            lemma_no_substring_first_absent("{\n  \"Version\": "@, needle);
            assert(!",\n  \"AccessKeyId\": "@.contains(needle[0]));
            lemma_no_substring_first_absent(",\n  \"AccessKeyId\": "@, needle);
            assert(!",\n  \"SecretAccessKey\": "@.contains(needle[0]));
            lemma_no_substring_first_absent(",\n  \"SecretAccessKey\": "@, needle);
            assert(!has_substring("\n}"@, needle));
            lemma_framed_document_no_marker(
                "{\n  \"Version\": "@,
                c.version as nat,
                ",\n  \"AccessKeyId\": "@,
                c.access_key_id,
                ",\n  \"SecretAccessKey\": "@,
                c.secret_access_key,
                sp,
                Seq::<char>::empty(),
                "\n}"@,
                needle,
            );
            assert(json_pretty(c) == "{\n  \"Version\": "@ + decimal(c.version as nat)
                + ",\n  \"AccessKeyId\": "@ + json_text(c.access_key_id)
                + ",\n  \"SecretAccessKey\": "@ + json_text(c.secret_access_key) + sp
                + Seq::<char>::empty() + "\n}"@);
        },
    }
}

/// Round-trip law: decoding a record's attributes and serializing the result
/// yields a document whose access key id and secret key are exactly the
/// record's account and secret text, version one, with the session token and
/// expiration unset and their markers absent from the serialized text.
/// Stated for plain attribute text that does not itself spell a marker.
pub proof fn lemma_decode_encode_round_trip(account: Seq<char>, secret: Seq<char>)
    requires
        plain_text(account),
        plain_text(secret),
        !has_substring(account, "SessionToken"@),
        !has_substring(secret, "SessionToken"@),
        !has_substring(account, "Expiration"@),
        !has_substring(secret, "Expiration"@),
    ensures
        decoded(Some(account), Some(secret)).version == 1,
        decoded(Some(account), Some(secret)).access_key_id == account,
        decoded(Some(account), Some(secret)).secret_access_key == secret,
        decoded(Some(account), Some(secret)).session_token is None,
        decoded(Some(account), Some(secret)).expiration is None,
        !has_substring(json_compact(decoded(Some(account), Some(secret))), "SessionToken"@),
        !has_substring(json_compact(decoded(Some(account), Some(secret))), "Expiration"@),
        !has_substring(json_pretty(decoded(Some(account), Some(secret))), "SessionToken"@),
        !has_substring(json_pretty(decoded(Some(account), Some(secret))), "Expiration"@),
{
    let c = decoded(Some(account), Some(secret));
    lemma_session_token_omission(c);
    lemma_expiration_omission(c);
}

/// A marker standing inside one literal piece of a document occurs in the
/// whole text: the occurrence starts `at` characters into the piece, which
/// follows the prefix.
proof fn lemma_marker_at_offset(
    text: Seq<char>,
    prefix: Seq<char>,
    piece: Seq<char>,
    needle: Seq<char>,
    at: int,
)
    requires
        0 <= at,
        at + needle.len() <= piece.len(),
        piece.subrange(at, at + needle.len() as int) == needle,
        text.len() >= prefix.len() + piece.len(),
        text.subrange(prefix.len() as int, (prefix.len() + piece.len()) as int) == piece,
    ensures
        has_substring(text, needle),
{
    let o = prefix.len() + at;
    assert(text.subrange(o, o + needle.len() as int) =~= needle) by {
        assert forall|m: int| 0 <= m < needle.len() implies text.subrange(
            o,
            o + needle.len() as int,
        )[m] == needle[m] by {
            assert(text.subrange(o, o + needle.len() as int)[m] == text[o + m]);
            assert(text[o + m] == text.subrange(
                prefix.len() as int,
                (prefix.len() + piece.len()) as int,
            )[at + m]);
            assert(piece[at + m] == piece.subrange(at, at + needle.len() as int)[m]);
        }
    }
    assert(0 <= o <= text.len() - needle.len());
}

/// The literal naming the secret key field does not spell the session-token
/// marker: its only capital `S` is followed two characters later by `c`, not
/// `s`.
proof fn lemma_secret_access_key_literal_no_session_marker()
    ensures
        !has_substring(",\"SecretAccessKey\":"@, "SessionToken"@),
{
    let t = ",\"SecretAccessKey\":"@;
    let needle = "SessionToken"@;
    reveal_strlit(",\"SecretAccessKey\":");
    reveal_strlit("SessionToken");
    assert forall|i: int| 0 <= i <= t.len() - needle.len() implies #[trigger] t.subrange(
        i,
        i + needle.len() as int,
    ) != needle by {
        if t.subrange(i, i + needle.len() as int) == needle {
            assert(t[i] == needle[0]);
            assert(t[i + 2] == needle[2]);
            assert(false);
        }
    }
}

/// The pretty form of the same literal does not spell the marker either.
proof fn lemma_pretty_secret_access_key_literal_no_session_marker()
    ensures
        !has_substring(",\n  \"SecretAccessKey\": "@, "SessionToken"@),
{
    let t = ",\n  \"SecretAccessKey\": "@;
    let needle = "SessionToken"@;
    reveal_strlit(",\n  \"SecretAccessKey\": ");
    reveal_strlit("SessionToken");
    assert forall|i: int| 0 <= i <= t.len() - needle.len() implies #[trigger] t.subrange(
        i,
        i + needle.len() as int,
    ) != needle by {
        if t.subrange(i, i + needle.len() as int) == needle {
            assert(t[i] == needle[0]);
            assert(t[i + 2] == needle[2]);
            assert(false);
        }
    }
}

} // verus!
