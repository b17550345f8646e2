use vstd::prelude::*;
use vstd::string::StrSliceExecFns;
use vstd::utf8::{decode_utf8, encode_utf8, valid_utf8};

verus! {

/// The value of an ASCII hexadecimal digit.
pub open spec fn spec_hex_value(byte: u8) -> Option<u8> {
    if 0x30 <= byte <= 0x39 {
        Some((byte - 0x30) as u8)
    } else if 0x61 <= byte <= 0x66 {
        Some((byte - 0x61 + 10) as u8)
    } else if 0x41 <= byte <= 0x46 {
        Some((byte - 0x41 + 10) as u8)
    } else {
        None
    }
}

/// The value of an ASCII hexadecimal digit, `None` for any other byte.
pub fn hex_value(byte: u8) -> (result: Option<u8>)
    ensures
        result == spec_hex_value(byte),
{
    if 0x30 <= byte && byte <= 0x39 {
        Some(byte - 0x30)
    } else if 0x61 <= byte && byte <= 0x66 {
        Some(byte - 0x61 + 10)
    } else if 0x41 <= byte && byte <= 0x46 {
        Some(byte - 0x41 + 10)
    } else {
        None
    }
}

/// The bytes denoted by percent-encoded bytes: `%` and two hexadecimal digits stand for one
/// byte, any other byte for itself; `None` when a `%` is not followed by two hexadecimal digits.
pub open spec fn percent_decoded(bytes: Seq<u8>) -> Option<Seq<u8>>
    decreases bytes.len(),
{
    if bytes.len() == 0 {
        Some(seq![])
    } else if bytes[0] == 0x25 {
        if bytes.len() < 3 {
            None
        } else {
            match (spec_hex_value(bytes[1]), spec_hex_value(bytes[2])) {
                (Some(high), Some(low)) => match percent_decoded(bytes.subrange(3, bytes.len() as int)) {
                    Some(rest) => Some(seq![(high * 16 + low) as u8] + rest),
                    None => None,
                },
                _ => None,
            }
        }
    } else {
        match percent_decoded(bytes.drop_first()) {
            Some(rest) => Some(seq![bytes[0]] + rest),
            None => None,
        }
    }
}

/// The message for malformed percent encoding in `value`.
pub open spec fn invalid_encoding_message(value: Seq<char>) -> Seq<char> {
    "invalid percent encoding in '"@ + value + "'"@
}

/// The message for a decoded root path that is not UTF-8.
pub open spec fn invalid_text_message(value: Seq<char>) -> Seq<char> {
    "MCP root '"@ + value + "' is not valid UTF-8"@
}

/// `String::from_utf8`: the text the bytes encode, when they are valid UTF-8.
#[verifier::external_body]
fn string_from_utf8(bytes: Vec<u8>) -> (result: Option<String>)
    ensures
        result is Some <==> valid_utf8(bytes@),
        result matches Some(text) ==> text@ == decode_utf8(bytes@),
{
    match String::from_utf8(bytes) {
        Ok(text) => Some(text),
        Err(_) => None,
    }
}

fn quoted_message(prefix: &str, value: &str, suffix: &str) -> (result: String)
    ensures
        result@ == prefix@ + value@ + suffix@,
{
    let mut message = String::from_str(prefix);
    message.append(value);
    message.append(suffix);
    message
}

/// Decodes the bytes of percent-encoded text.
pub fn percent_decode_bytes(bytes: &[u8]) -> (result: Option<Vec<u8>>)
    ensures
        match percent_decoded(bytes@) {
            Some(decoded) => result matches Some(found) && found@ == decoded,
            None => result is None,
        },
{
    let mut decoded: Vec<u8> = Vec::new();
    let mut index: usize = 0;
    let ghost all = bytes@;
    assert(all.subrange(0, all.len() as int) =~= all);
    while index < bytes.len()
        invariant
            index <= bytes@.len(),
            all == bytes@,
            percent_decoded(all) == match percent_decoded(all.subrange(index as int, all.len() as int)) {
                Some(rest) => Some(decoded@ + rest),
                None => None::<Seq<u8>>,
            },
        decreases bytes@.len() - index,
    {
        let ghost here = all.subrange(index as int, all.len() as int);
        if bytes[index] == 0x25 {
            if bytes.len() - index <= 2 {
                return None;
            }
            let high = match hex_value(bytes[index + 1]) {
                Some(value) => value,
                None => return None,
            };
            let low = match hex_value(bytes[index + 2]) {
                Some(value) => value,
                None => return None,
            };
            proof {
                assert(here.subrange(3, here.len() as int) =~= all.subrange(index + 3, all.len() as int));
                match percent_decoded(all.subrange(index + 3, all.len() as int)) {
                    Some(rest) => {
                        assert(decoded@ + (seq![(high * 16 + low) as u8] + rest) =~= decoded@.push((high * 16 + low) as u8) + rest);
                    },
                    None => {},
                }
            }
            decoded.push(high * 16 + low);
            index += 3;
        } else {
            proof {
                assert(here.drop_first() =~= all.subrange(index + 1, all.len() as int));
                match percent_decoded(all.subrange(index + 1, all.len() as int)) {
                    Some(rest) => {
                        assert(decoded@ + (seq![all[index as int]] + rest) =~= decoded@.push(all[index as int]) + rest);
                    },
                    None => {},
                }
            }
            decoded.push(bytes[index]);
            index += 1;
        }
    }
    proof {
        assert(decoded@ + Seq::<u8>::empty() =~= decoded@);
    }
    Some(decoded)
}

/// Decodes percent-encoded text.
///
/// Fails when a `%` is not followed by two hexadecimal digits, or when the decoded bytes are
/// not UTF-8.
pub fn percent_decode(value: &str) -> (result: Result<String, String>)
    ensures
        match percent_decoded(encode_utf8(value@)) {
            None => result matches Err(message) && message@ == invalid_encoding_message(value@),
            Some(bytes) => if valid_utf8(bytes) {
                result matches Ok(text) && text@ == decode_utf8(bytes)
            } else {
                result matches Err(message) && message@ == invalid_text_message(value@)
            },
        },
{
    proof {
        reveal_strlit("invalid percent encoding in '");
        reveal_strlit("'");
        reveal_strlit("MCP root '");
        reveal_strlit("' is not valid UTF-8");
    }
    let decoded = match percent_decode_bytes(value.as_bytes()) {
        Some(bytes) => bytes,
        None => return Err(quoted_message("invalid percent encoding in '", value, "'")),
    };
    match string_from_utf8(decoded) {
        Some(text) => Ok(text),
        None => Err(quoted_message("MCP root '", value, "' is not valid UTF-8")),
    }
}

/// The local path a `file://` URI names: the URI must start with `file:///` (no host), and the
/// rest is percent-decoded and prefixed with `/`.
pub open spec fn uri_path(uri: Seq<char>) -> Result<Seq<char>, Seq<char>> {
    if uri.len() < 7 || uri.subrange(0, 7) != "file://"@ {
        Err("MCP root '"@ + uri + "' is not a file URI"@)
    } else if uri.len() < 8 || uri[7] != '/' {
        Err("MCP root '"@ + uri + "' has a remote host"@)
    } else {
        let encoded = uri.subrange(8, uri.len() as int);
        match percent_decoded(encode_utf8(encoded)) {
            None => Err(invalid_encoding_message(encoded)),
            Some(bytes) => if valid_utf8(bytes) {
                Ok(seq!['/'] + decode_utf8(bytes))
            } else {
                Err(invalid_text_message(encoded))
            },
        }
    }
}

/// The local path of a `file://` workspace root URI.
///
/// Fails for other schemes, for URIs with a host, and for malformed or non-UTF-8 paths.
pub fn file_uri_to_path(uri: &str) -> (result: Result<String, String>)
    ensures
        match uri_path(uri@) {
            Ok(path) => result matches Ok(found) && found@ == path,
            Err(message) => result matches Err(found) && found@ == message,
        },
{
    proof {
        reveal_strlit("file://");
        reveal_strlit("MCP root '");
        reveal_strlit("' is not a file URI");
        reveal_strlit("' has a remote host");
        reveal_strlit("/");
    }
    let length = uri.unicode_len();
    let scheme = "file://";
    assert(scheme@.len() == 7);
    let mut matches_scheme = length >= 7;
    let mut index: usize = 0;
    while matches_scheme && index < 7
        invariant
            index <= 7,
            length == uri@.len(),
            scheme@ == "file://"@,
            scheme@.len() == 7,
            matches_scheme ==> length >= 7 && uri@.subrange(0, index as int) == scheme@.subrange(0, index as int),
            !matches_scheme ==> length < 7 || uri@.subrange(0, 7) != scheme@,
        decreases 7 - index + if matches_scheme { 1int } else { 0 },
    {
        if uri.get_char(index) != scheme.get_char(index) {
            proof {
                assert(uri@.subrange(0, 7)[index as int] != scheme@[index as int]);
            }
            matches_scheme = false;
        } else {
            proof {
                assert(uri@.subrange(0, index as int + 1) =~= uri@.subrange(0, index as int).push(uri@[index as int]));
                assert(scheme@.subrange(0, index as int + 1) =~= scheme@.subrange(0, index as int).push(scheme@[index as int]));
            }
            index += 1;
        }
    }
    if !matches_scheme {
        return Err(quoted_message("MCP root '", uri, "' is not a file URI"));
    }
    proof {
        assert(scheme@.subrange(0, 7) =~= scheme@);
    }
    if length < 8 || uri.get_char(7) != '/' {
        return Err(quoted_message("MCP root '", uri, "' has a remote host"));
    }
    let encoded = uri.substring_char(8, length);
    match percent_decode(encoded) {
        Ok(decoded) => {
            let mut path = String::from_str("/");
            path.append(decoded.as_str());
            Ok(path)
        },
        Err(message) => Err(message),
    }
}

} // verus!
