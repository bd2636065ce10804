//! Where the node's interfaces are reached, and how they fail.

use base64::prelude::BASE64_STANDARD;
use base64::Engine;
use lightning_block_sync::http::HttpEndpoint;
use vstd::prelude::*;
use vstd::utf8::{decode_utf8, encode_utf8, valid_utf8};

verus! {

/// The text of an HTTP failure.
pub open spec fn http_error_text(status_code: Seq<char>, contents: Seq<char>) -> Seq<char> {
    "status_code: "@ + status_code + ", contents: "@ + contents
}

/// Whether `piece` stands in `text` at a position.
pub open spec fn stands_at(text: Seq<char>, at: int, piece: Seq<char>) -> bool {
    &&& 0 <= at <= at + piece.len() <= text.len()
    &&& text.subrange(at, at + piece.len()) == piece
}

/// Whether `piece` stands in `text` at a position.
fn is_at(text: &str, at: usize, piece: &str) -> (r: bool)
    ensures
        r == stands_at(text@, at as int, piece@),
{
    let n: usize = text.unicode_len();
    let m: usize = piece.unicode_len();
    if at > n || n - at < m {
        false
    } else {
        let there: String = text.substring_char(at, at + m).to_owned();
        let wanted: String = piece.to_owned();
        there == wanted
    }
}

/// What `String::from_utf8_lossy` makes of these bytes.
pub uninterp spec fn lossy_text(bytes: Seq<u8>) -> Seq<char>;

/// `String::from_utf8_lossy`: bytes that are UTF-8 are decoded; what else comes out of other
/// bytes depends on them alone.
#[verifier::external_body]
fn decode_lossy(bytes: &[u8]) -> (text: String)
    ensures
        text@ == lossy_text(bytes@),
        valid_utf8(bytes@) ==> text@ == decode_utf8(bytes@),
{
    String::from_utf8_lossy(bytes).into_owned()
}

/// A reply that is no success.
#[derive(Debug, PartialEq, Eq)]
pub struct HttpError {
    pub status_code: String,
    pub contents: Vec<u8>,
}

impl HttpError {
    /// The text of the failure, its contents already decoded.
    pub fn text_with(&self, contents: &str) -> (text: String)
        ensures
            text@ == http_error_text(self.status_code@, contents@),
    {
        let mut text: String = "status_code: ".to_owned();
        text.append(self.status_code.as_str());
        text.append(", contents: ");
        text.append(contents);
        text
    }

    /// The text of the failure.
    pub fn to_text(&self) -> (text: String)
        ensures
            text@ == http_error_text(self.status_code@, lossy_text(self.contents@)),
            valid_utf8(self.contents@) ==> text@ == http_error_text(
                self.status_code@,
                decode_utf8(self.contents@),
            ),
    {
        let contents = decode_lossy(self.contents.as_slice());
        self.text_with(contents.as_str())
    }

    /// The failure that has this text: the status code ends at the first comma, and the contents
    /// are those of the text, in UTF-8.
    pub fn from_text(text: &str) -> (error: Option<HttpError>)
        ensures
            match error {
                Some(e) => {
                    &&& !e.status_code@.contains(',')
                    &&& exists|contents: Seq<char>|
                        {
                            &&& text@ == #[trigger] http_error_text(e.status_code@, contents)
                            &&& e.contents@ == encode_utf8(contents)
                        }
                },
                None => forall|status_code: Seq<char>, contents: Seq<char>|
                    text@ == #[trigger] http_error_text(status_code, contents)
                        ==> status_code.contains(','),
            },
    {
        proof {
            reveal_strlit("status_code: ");
            reveal_strlit(", contents: ");
        }
        let n: usize = text.unicode_len();
        let start: usize = "status_code: ".unicode_len();
        let gap: usize = ", contents: ".unicode_len();
        if !is_at(text, 0, "status_code: ") {
            proof {
                lemma_error_text_layout(text@);
            }
            return None;
        }
        let mut i: usize = start;
        while i < n && text.get_char(i) != ','
            invariant
                start <= i <= n,
                n == text@.len(),
                forall|j: int| start <= j < i ==> text@[j] != ',',
            decreases n - i,
        {
            i += 1;
        }
        proof {
            lemma_error_text_layout(text@);
        }
        if is_at(text, i, ", contents: ") {
            let status_code: String = text.substring_char(start, i).to_owned();
            let contents = text.substring_char(i + gap, n);
            proof {
                assert(text@ =~= http_error_text(status_code@, contents@));
            }
            Some(HttpError { status_code, contents: contents.as_bytes_vec() })
        } else {
            None
        }
    }
}

/// Where the pieces of the text of a failure stand.
proof fn lemma_error_text_layout(text: Seq<char>)
    ensures
        forall|status_code: Seq<char>, contents: Seq<char>|
            text == #[trigger] http_error_text(status_code, contents) ==> {
                let at = "status_code: "@.len() + status_code.len();
                &&& stands_at(text, 0, "status_code: "@)
                &&& stands_at(text, at as int, ", contents: "@)
                &&& text.subrange("status_code: "@.len() as int, at as int) == status_code
                &&& text[at as int] == ','
                &&& forall|j: int|
                    "status_code: "@.len() <= j < at ==> #[trigger] text[j]
                        == status_code[j - "status_code: "@.len()]
            },
{
    reveal_strlit("status_code: ");
    reveal_strlit(", contents: ");
    assert forall|status_code: Seq<char>, contents: Seq<char>|
        text == #[trigger] http_error_text(status_code, contents) implies {
        let at = "status_code: "@.len() + status_code.len();
        &&& stands_at(text, 0, "status_code: "@)
        &&& stands_at(text, at as int, ", contents: "@)
        &&& text.subrange("status_code: "@.len() as int, at as int) == status_code
        &&& text[at as int] == ','
        &&& forall|j: int|
            "status_code: "@.len() <= j < at ==> #[trigger] text[j] == status_code[j
                - "status_code: "@.len()]
    } by {
        let at = "status_code: "@.len() + status_code.len();
        assert(text.subrange(0, "status_code: "@.len() as int) =~= "status_code: "@);
        assert(text.subrange(at as int, at as int + ", contents: "@.len()) =~= ", contents: "@);
        assert(text.subrange("status_code: "@.len() as int, at as int) =~= status_code);
    }
}

/// The text of a failure is made of the status code and the contents, whole and in this order, with
/// what names them before each.
pub proof fn law_error_text_layout(status_code: Seq<char>, contents: Seq<char>)
    ensures
        ({
            let text = http_error_text(status_code, contents);
            let n = status_code.len() as int;
            &&& text.len() == 13 + n + 12 + contents.len()
            &&& text.take(13) == "status_code: "@
            &&& text.subrange(13, 13 + n) == status_code
            &&& text.subrange(13 + n, 25 + n) == ", contents: "@
            &&& text.skip(25 + n) == contents
        }),
{
    reveal_strlit("status_code: ");
    reveal_strlit(", contents: ");
    let text = http_error_text(status_code, contents);
    let n = status_code.len() as int;
    assert(text.take(13) =~= "status_code: "@);
    assert(text.subrange(13, 13 + n) =~= status_code);
    assert(text.subrange(13 + n, 25 + n) =~= ", contents: "@);
    assert(text.skip(25 + n) =~= contents);
}

/// The text of a failure whose status code holds no comma determines both the status code and the
/// contents.
pub proof fn law_error_text_is_unambiguous(
    status_code: Seq<char>,
    contents: Seq<char>,
    other_code: Seq<char>,
    other_contents: Seq<char>,
)
    requires
        http_error_text(status_code, contents) == http_error_text(other_code, other_contents),
        !status_code.contains(','),
        !other_code.contains(','),
    ensures
        status_code == other_code,
        contents == other_contents,
{
    let text = http_error_text(status_code, contents);
    lemma_error_text_layout(text);
    reveal_strlit("status_code: ");
    reveal_strlit(", contents: ");
    let start = "status_code: "@.len();
    if status_code.len() < other_code.len() {
        assert(text[(start + status_code.len()) as int] == other_code[status_code.len() as int]);
    } else if other_code.len() < status_code.len() {
        assert(text[(start + other_code.len()) as int] == status_code[other_code.len() as int]);
    }
    let end = start + status_code.len() + ", contents: "@.len();
    assert(text.skip(end as int) =~= contents);
    assert(text.skip(end as int) =~= other_contents);
}

/// A place that is reached by HTTP.
#[derive(Debug, PartialEq, Eq)]
pub struct Endpoint {
    pub host: String,
    pub port: u16,
    pub path: String,
}

/// `HttpEndpoint::for_host` and `HttpEndpoint::with_port`: an endpoint at the host and the port,
/// with the path `/`.
#[verifier::external_body]
fn http_endpoint(host: String, port: u16) -> (endpoint: Endpoint)
    ensures
        endpoint.host@ == host@,
        endpoint.port == port,
        endpoint.path@ == "/"@,
{
    let e = HttpEndpoint::for_host(host).with_port(port);
    Endpoint { host: e.host().to_string(), port: e.port(), path: e.path().to_string() }
}

/// `HttpEndpoint::with_path`, of an endpoint made anew from its host and port: the same host and
/// port, with another path.
#[verifier::external_body]
fn http_endpoint_with_path(endpoint: Endpoint, path: String) -> (moved: Endpoint)
    ensures
        moved.host@ == endpoint.host@,
        moved.port == endpoint.port,
        moved.path@ == path@,
{
    let e = HttpEndpoint::for_host(endpoint.host).with_port(endpoint.port).with_path(path);
    Endpoint { host: e.host().to_string(), port: e.port(), path: e.path().to_string() }
}

/// The endpoint at a host and a port.
pub fn endpoint(host: String, port: u16) -> (endpoint: Endpoint)
    ensures
        endpoint.host@ == host@,
        endpoint.port == port,
        endpoint.path@ == "/"@,
{
    http_endpoint(host, port)
}

/// The endpoint of the REST interface at a host and a port.
pub fn rest_endpoint(host: String, port: u16) -> (endpoint: Endpoint)
    ensures
        endpoint.host@ == host@,
        endpoint.port == port,
        endpoint.path@ == "/rest"@,
{
    http_endpoint_with_path(http_endpoint(host, port), "/rest".to_owned())
}

/// The character that stands for six bits in the standard base64 alphabet.
pub open spec fn base64_char(bits: int) -> char {
    if bits < 26 {
        ('A' as u32 + bits) as char
    } else if bits < 52 {
        ('a' as u32 + (bits - 26)) as char
    } else if bits < 62 {
        ('0' as u32 + (bits - 52)) as char
    } else if bits == 62 {
        '+'
    } else {
        '/'
    }
}

/// The six bits at a position of the bytes, which zeros follow: three bytes are four times six
/// bits.
pub open spec fn six_bits(bytes: Seq<u8>, at: int) -> int {
    let byte = |i: int|
        if i < bytes.len() {
            bytes[i] as int
        } else {
            0
        };
    let first = at / 4 * 3;
    let group = 0x10000 * byte(first) + 0x100 * byte(first + 1) + byte(first + 2);
    if at % 4 == 0 {
        group / 0x40000
    } else if at % 4 == 1 {
        group / 0x1000 % 0x40
    } else if at % 4 == 2 {
        group / 0x40 % 0x40
    } else {
        group % 0x40
    }
}

/// The standard base64 text of the bytes: four characters for each three bytes begun, those
/// beyond the last bit being padding.
pub open spec fn base64_text(bytes: Seq<u8>) -> Seq<char> {
    Seq::new(
        (bytes.len() + 2) / 3 * 4,
        |i: int|
            if 6 * i < 8 * bytes.len() {
                base64_char(six_bits(bytes, i))
            } else {
                '='
            },
    )
}

/// `Engine::encode` of `BASE64_STANDARD`: the base64 text, in the standard alphabet and with
/// padding, of the UTF-8 bytes of a text.
#[verifier::external_body]
fn encode_base64(text: &str) -> (encoded: String)
    ensures
        encoded@ == base64_text(encode_utf8(text@)),
{
    BASE64_STANDARD.encode(text)
}

/// A user name and a password, joined by a colon as HTTP basic authentication wants them.
pub open spec fn joined_credentials(user: Seq<char>, password: Seq<char>) -> Seq<char> {
    user.push(':') + password
}

/// Joins a user name and a password by a colon.
pub fn join_credentials(rpc_user: &str, rpc_password: &str) -> (joined: String)
    ensures
        joined@ == joined_credentials(rpc_user@, rpc_password@),
{
    let mut joined: String = rpc_user.to_owned();
    joined.push(':');
    joined.append(rpc_password);
    joined
}

/// The credentials for HTTP basic authentication: the base64 encoding of a user name and a
/// password joined by a colon.
pub fn rpc_credentials(rpc_user: String, rpc_password: String) -> (credentials: String)
    ensures
        credentials@ == base64_text(encode_utf8(joined_credentials(rpc_user@, rpc_password@))),
{
    encode_base64(join_credentials(rpc_user.as_str(), rpc_password.as_str()).as_str())
}

/// The joined credentials are the user name and the password, whole and in this order, with a colon
/// between them.
pub proof fn law_joined_credentials(user: Seq<char>, password: Seq<char>)
    ensures
        ({
            let joined = joined_credentials(user, password);
            let n = user.len() as int;
            &&& joined.len() == n + 1 + password.len()
            &&& joined.take(n) == user
            &&& joined[n] as int == 58
            &&& joined.skip(n + 1) == password
        }),
{
    let joined = joined_credentials(user, password);
    assert(joined.take(user.len() as int) =~= user);
    assert(joined.skip(user.len() as int + 1) =~= password);
}

/// What a character of the standard base64 alphabet counts.
pub open spec fn base64_value(c: char) -> int {
    let code = c as int;
    if 65 <= code <= 90 {
        code - 65
    } else if 97 <= code <= 122 {
        code - 71
    } else if 48 <= code <= 57 {
        code + 4
    } else if code == 43 {
        62
    } else {
        63
    }
}

/// A base64 text reads back to the bytes, all of them: each byte takes up six bits and the next
/// two, four and four, or two and six. Each group of four characters begun by a byte is filled up,
/// behind the last byte with equals signs.
pub proof fn law_base64_reads_back(bytes: Seq<u8>, i: int)
    requires
        0 <= i < bytes.len(),
    ensures
        ({
            let text = base64_text(bytes);
            let at = i / 3 * 4;
            let first = base64_value(text[at]);
            let second = base64_value(text[at + 1]);
            let third = base64_value(text[at + 2]);
            let fourth = base64_value(text[at + 3]);
            &&& at + 3 < text.len() < 4 * bytes.len() / 3 + 4
            &&& text.len() % 4 == 0
            &&& i % 3 == 0 ==> bytes[i] == 4 * first + second / 16
            &&& i % 3 == 1 ==> bytes[i] == 16 * (second % 16) + third / 4
            &&& i % 3 == 2 ==> bytes[i] == 64 * (third % 4) + fourth
            &&& i == bytes.len() - 1 && i % 3 == 0 ==> text[at + 2] as int == 61 && text[at
                + 3] as int == 61 && second % 16 == 0
            &&& i == bytes.len() - 1 && i % 3 == 1 ==> text[at + 3] as int == 61 && third % 4 == 0
        }),
{
    let text = base64_text(bytes);
    let n = bytes.len() as int;
    let g = i / 3;
    let at = i / 3 * 4;
    lemma_base64_group(bytes, g);
    assert(text.len() == (n + 2) / 3 * 4);
    assert(g < (n + 2) / 3);
    assert(at + 3 < text.len());
    assert(text.len() < 4 * n / 3 + 4);
    assert(text[at] == base64_char(six_bits(bytes, at)));
    assert(text[at + 1] == base64_char(six_bits(bytes, at + 1)));
    if i % 3 > 0 || i < n - 1 {
        assert(n >= 3 * g + 2);
        assert(text[at + 2] == base64_char(six_bits(bytes, at + 2)));
    }
    if i % 3 > 1 {
        assert(n >= 3 * g + 3);
        assert(text[at + 3] == base64_char(six_bits(bytes, at + 3)));
    }
}

/// Four times six bits are three bytes.
proof fn lemma_base64_group(bytes: Seq<u8>, g: int)
    requires
        0 <= g,
        3 * g < bytes.len(),
    ensures
        ({
            let first = base64_value(base64_char(six_bits(bytes, g * 4)));
            let second = base64_value(base64_char(six_bits(bytes, g * 4 + 1)));
            let third = base64_value(base64_char(six_bits(bytes, g * 4 + 2)));
            let fourth = base64_value(base64_char(six_bits(bytes, g * 4 + 3)));
            &&& bytes[3 * g] == 4 * first + second / 16
            &&& 3 * g + 1 < bytes.len() ==> bytes[3 * g + 1] == 16 * (second % 16) + third / 4
            &&& 3 * g + 2 < bytes.len() ==> bytes[3 * g + 2] == 64 * (third % 4) + fourth
            &&& 3 * g + 1 == bytes.len() ==> second % 16 == 0
            &&& 3 * g + 2 == bytes.len() ==> third % 4 == 0
        }),
{
    let b0 = bytes[3 * g] as int;
    let b1 = if 3 * g + 1 < bytes.len() {
        bytes[3 * g + 1] as int
    } else {
        0
    };
    let b2 = if 3 * g + 2 < bytes.len() {
        bytes[3 * g + 2] as int
    } else {
        0
    };
    let group = 0x10000 * b0 + 0x100 * b1 + b2;
    let at = g * 4;
    assert(at / 4 * 3 == 3 * g && at % 4 == 0);
    assert((at + 1) / 4 * 3 == 3 * g && (at + 1) % 4 == 1);
    assert((at + 2) / 4 * 3 == 3 * g && (at + 2) % 4 == 2);
    assert((at + 3) / 4 * 3 == 3 * g && (at + 3) % 4 == 3);
    assert(six_bits(bytes, at) == group / 0x40000);
    assert(six_bits(bytes, at + 1) == group / 0x1000 % 0x40);
    assert(six_bits(bytes, at + 2) == group / 0x40 % 0x40);
    assert(six_bits(bytes, at + 3) == group % 0x40);
    lemma_group_of_bytes(b0, b1, b2);
    lemma_base64_char(six_bits(bytes, at));
    lemma_base64_char(six_bits(bytes, at + 1));
    lemma_base64_char(six_bits(bytes, at + 2));
    lemma_base64_char(six_bits(bytes, at + 3));
}

/// How three bytes lie in 24 bits.
proof fn lemma_group_of_bytes(b0: int, b1: int, b2: int)
    requires
        0 <= b0 < 256,
        0 <= b1 < 256,
        0 <= b2 < 256,
    ensures
        ({
            let group = 0x10000 * b0 + 0x100 * b1 + b2;
            &&& group / 0x40000 == b0 / 4
            &&& group / 0x1000 % 0x40 == (b0 % 4) * 16 + b1 / 16
            &&& group / 0x40 % 0x40 == (b1 % 16) * 4 + b2 / 64
            &&& group % 0x40 == b2 % 64
        }),
{
    let group = 0x10000 * b0 + 0x100 * b1 + b2;
    assert(group / 0x1000 == 16 * b0 + b1 / 16);
    assert(group / 0x40 == 1024 * b0 + 4 * b1 + b2 / 64);
}

/// The character for six bits counts them.
proof fn lemma_base64_char(bits: int)
    requires
        0 <= bits < 64,
    ensures
        base64_value(base64_char(bits)) == bits,
{
}

} // verus!
