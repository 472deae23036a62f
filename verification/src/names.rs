//! Domain-name wire coding: dotted text split into labels, each label
//! emitted as a one-byte length followed by its bytes, the whole terminated
//! by a zero byte; and the inverse decoder, which also follows the 2-byte
//! compression pointers of the DNS message format.

use crate::DnsError;
use vstd::prelude::*;
use vstd::string::*;

verus! {

/// The longest label the wire format can carry: its length byte must leave
/// the two most significant bits clear.
pub const MAX_LABEL_LEN: usize = 63;

/// How many compression-pointer hops a single name may take before the
/// decoder treats the message as malformed. Guards against pointer loops.
pub const MAX_POINTER_HOPS: u32 = 64;

/// The bytes of a character sequence, one byte per character.
/// Meaningful for ASCII text, where every code point fits a byte.
pub open spec fn char_bytes(s: Seq<char>) -> Seq<u8> {
    Seq::new(s.len(), |i: int| s[i] as u8)
}

/// `s` spells exactly the ASCII bytes `bytes`, character by character.
pub open spec fn text_of(s: Seq<char>, bytes: Seq<u8>) -> bool {
    &&& s.len() == bytes.len()
    &&& forall|i: int| 0 <= i < s.len() ==> (#[trigger] s[i]) as int == bytes[i] as int
}

/// Every byte is ASCII.
pub open spec fn ascii_bytes(s: Seq<u8>) -> bool {
    forall|i: int| 0 <= i < s.len() ==> (#[trigger] s[i]) < 128
}

/// The labels of a dotted name: the maximal runs of bytes between dots.
/// An empty name yields one empty label, as splitting on dots does.
pub open spec fn split_labels(name: Seq<u8>) -> Seq<Seq<u8>>
    decreases name.len(),
{
    if name.len() == 0 {
        seq![Seq::<u8>::empty()]
    } else if name[0] == 46u8 {
        seq![Seq::<u8>::empty()] + split_labels(name.skip(1))
    } else {
        let rest = split_labels(name.skip(1));
        seq![seq![name[0]] + rest[0]] + rest.skip(1)
    }
}

/// Every label of the name fits the 63-byte wire limit.
pub open spec fn labels_within_limit(name: Seq<u8>) -> bool {
    forall|i: int|
        0 <= i < split_labels(name).len() ==> (#[trigger] split_labels(name)[i]).len() <= 63
}

/// A name whose encoding decodes back to itself: ASCII text whose labels
/// are all 1 to 63 bytes long.
pub open spec fn valid_name_wire(name: Seq<u8>) -> bool {
    &&& ascii_bytes(name)
    &&& forall|i: int|
        0 <= i < split_labels(name).len() ==> 1 <= (#[trigger] split_labels(name)[i]).len() <= 63
}

/// The wire form of a label list: length byte then label bytes for each,
/// then the terminating zero byte.
pub open spec fn encode_labels_wire(labels: Seq<Seq<u8>>) -> Seq<u8>
    decreases labels.len(),
{
    if labels.len() == 0 {
        seq![0u8]
    } else {
        seq![labels[0].len() as u8] + labels[0] + encode_labels_wire(labels.skip(1))
    }
}

/// The wire encoding of a dotted name.
pub open spec fn encode_name_bytes(name: Seq<u8>) -> Seq<u8> {
    encode_labels_wire(split_labels(name))
}

/// The index of the first dot in `name`, or `name.len()` if there is none.
pub open spec fn first_dot(name: Seq<u8>) -> int
    decreases name.len(),
{
    if name.len() == 0 {
        0
    } else if name[0] == 46u8 {
        0
    } else {
        1 + first_dot(name.skip(1))
    }
}

/// What decoding a name at `pos` in message `buf` yields: the dotted name
/// text and the number of bytes consumed at `pos`, or nothing if the name
/// runs past the buffer, holds a non-ASCII label byte, or chases more than
/// `hops` compression pointers. A pointer byte has both top bits set and,
/// with the following byte, names an absolute offset in the same buffer;
/// it costs 2 bytes regardless of the pointed-to name's length and ends
/// the current name.
pub open spec fn spec_decode_name(buf: Seq<u8>, pos: int, hops: nat) -> Option<(Seq<u8>, int)>
    decreases hops, buf.len() - pos,
{
    if pos < 0 || pos >= buf.len() {
        None
    } else {
        let len = buf[pos] as int;
        if len == 0 {
            Some((Seq::empty(), 1))
        } else if len >= 192 {
            if pos + 1 >= buf.len() || hops == 0 {
                None
            } else {
                let target = (len - 192) * 256 + buf[pos + 1] as int;
                match spec_decode_name(buf, target, (hops - 1) as nat) {
                    Option::None => None,
                    Option::Some(inner) => Some((inner.0, 2)),
                }
            }
        } else if pos + 1 + len > buf.len() {
            None
        } else if !ascii_bytes(buf.subrange(pos + 1, pos + 1 + len)) {
            None
        } else {
            match spec_decode_name(buf, pos + 1 + len, hops) {
                Option::None => None,
                Option::Some(rest) => {
                    let lab = buf.subrange(pos + 1, pos + 1 + len);
                    if buf[pos + 1 + len] == 0 {
                        Some((lab, 1 + len + rest.1))
                    } else {
                        Some((lab + seq![46u8] + rest.0, 1 + len + rest.1))
                    }
                },
            }
        }
    }
}

/// Relies on String::from_utf8: ASCII bytes are valid UTF-8, and the
/// resulting string holds exactly those bytes, one character per byte.
#[verifier::external_body]
pub(crate) fn string_from_ascii(v: Vec<u8>) -> (r: String)
    requires
        ascii_bytes(v@),
    ensures
        text_of(r@, v@),
{
    match String::from_utf8(v) {
        Ok(s) => s,
        Err(_) => String::new(),
    }
}

/// The index of the first dot at or after `from`, or the length if none.
pub(crate) fn find_dot(bytes: &[u8], from: usize) -> (r: usize)
    requires
        from <= bytes@.len(),
    ensures
        from <= r <= bytes@.len(),
        forall|k: int| from <= k < r ==> bytes@[k] != 46u8,
        r < bytes@.len() ==> bytes@[r as int] == 46u8,
{
    let mut j = from;
    while j < bytes.len()
        invariant
            from <= j <= bytes@.len(),
            forall|k: int| from <= k < j ==> bytes@[k] != 46u8,
        decreases bytes@.len() - j,
    {
        if bytes[j] == 46 {
            return j;
        }
        j += 1;
    }
    j
}

/// One unfolding of the wire form of a non-empty label list.
proof fn lemma_wire_unfold(labels: Seq<Seq<u8>>)
    requires
        labels.len() >= 1,
    ensures
        encode_labels_wire(labels) == seq![labels[0].len() as u8] + labels[0]
            + encode_labels_wire(labels.skip(1)),
{
}

/// The wire form of an empty label list is the lone terminator byte.
proof fn lemma_wire_empty()
    ensures
        encode_labels_wire(Seq::<Seq<u8>>::empty()) == seq![0u8],
{
}

/// Splitting at the first dot: the label list is the run before the dot
/// followed by the labels of what comes after it.
pub(crate) proof fn lemma_split_at_dot(name: Seq<u8>, d: int)
    requires
        0 <= d <= name.len(),
        forall|k: int| 0 <= k < d ==> name[k] != 46u8,
        d < name.len() ==> name[d] == 46u8,
    ensures
        split_labels(name) == if d == name.len() {
            seq![name]
        } else {
            seq![name.take(d)] + split_labels(name.skip(d + 1))
        },
    decreases d,
{
    if d == 0 {
        if name.len() == 0 {
            assert(name =~= Seq::<u8>::empty());
            assert(split_labels(name) =~~= seq![name]);
        } else {
            assert(name[0] == 46u8);
            assert(name.take(0) =~= Seq::<u8>::empty());
            assert(split_labels(name) =~~= seq![name.take(0)] + split_labels(name.skip(1)));
        }
    } else {
        assert(name[0] != 46u8);
        let tail = name.skip(1);
        lemma_split_at_dot(tail, d - 1);
        let rest = split_labels(tail);
        if d == name.len() {
            assert(rest == seq![tail]);
            assert(seq![name[0]] + tail =~= name);
            assert(rest.skip(1) =~~= Seq::<Seq<u8>>::empty());
            assert(split_labels(name) =~~= seq![name]);
        } else {
            assert(rest == seq![tail.take(d - 1)] + split_labels(tail.skip(d)));
            assert(rest[0] == tail.take(d - 1));
            assert(seq![name[0]] + tail.take(d - 1) =~= name.take(d));
            assert(rest.skip(1) =~~= split_labels(tail.skip(d)));
            assert(tail.skip(d) =~= name.skip(d + 1));
            assert(split_labels(name) =~~= seq![name.take(d)] + split_labels(name.skip(d + 1)));
        }
    }
}

/// Writes the wire form of the name suffix `bytes[from..]` onto `out`.
/// Returns false, leaving only a prefix written, when a label is too long.
fn encode_labels_into(bytes: &[u8], from: usize, out: &mut Vec<u8>) -> (ok: bool)
    requires
        from <= bytes@.len(),
    ensures
        ok ==> final(out)@ == old(out)@ + encode_name_bytes(bytes@.skip(from as int)),
        ok <==> labels_within_limit(bytes@.skip(from as int)),
    decreases bytes@.len() - from,
{
    let ghost suffix = bytes@.skip(from as int);
    let d = find_dot(bytes, from);
    let lab_len = d - from;
    proof {
        assert forall|k: int| 0 <= k < d - from implies suffix[k] != 46u8 by {
            assert(suffix[k] == bytes@[from + k]);
        }
        assert(d - from < suffix.len() ==> suffix[d - from] == 46u8) by {
            if d < bytes@.len() {
                assert(suffix[d - from] == bytes@[d as int]);
            }
        }
        lemma_split_at_dot(suffix, d - from);
        assert(suffix.take(d - from) =~= bytes@.subrange(from as int, d as int));
    }
    if lab_len > 63 {
        proof {
            assert(split_labels(suffix)[0].len() > 63);
        }
        return false;
    }
    let ghost out0 = out@;
    out.push(lab_len as u8);
    let mut j = from;
    while j < d
        invariant
            from <= j <= d <= bytes@.len(),
            lab_len == d - from,
            lab_len <= 63,
            out@ == out0 + seq![lab_len as u8] + bytes@.subrange(from as int, j as int),
        decreases d - j,
    {
        let b = bytes[j];
        out.push(b);
        proof {
            assert(out@ =~= out0 + seq![lab_len as u8] + bytes@.subrange(
                from as int,
                j + 1 as int,
            ));
        }
        j += 1;
    }
    let ghost lab = bytes@.subrange(from as int, d as int);
    if d == bytes.len() {
        out.push(0);
        proof {
            assert(split_labels(suffix) == seq![suffix]);
            assert(encode_labels_wire(split_labels(suffix).skip(1)) == seq![0u8]) by {
                assert(split_labels(suffix).skip(1) =~~= Seq::<Seq<u8>>::empty());
            }
            assert(suffix =~= lab);
            assert(encode_name_bytes(suffix) =~= seq![lab.len() as u8] + lab + seq![0u8]);
            assert(out@ =~= out0 + encode_name_bytes(suffix));
            assert forall|i: int|
                0 <= i < split_labels(suffix).len() implies (#[trigger] split_labels(
                suffix,
            )[i]).len() <= 63 by {}
        }
        true
    } else {
        let ghost suffix2 = bytes@.skip(d + 1 as int);
        proof {
            assert(split_labels(suffix) == seq![lab] + split_labels(suffix2)) by {
                assert(suffix.skip(d - from + 1) =~= suffix2);
            }
        }
        let ok = encode_labels_into(bytes, d + 1, out);
        proof {
            let rest_labels = split_labels(suffix2);
            assert(split_labels(suffix).skip(1) =~~= rest_labels);
            assert(split_labels(suffix)[0] == lab);
            if ok {
                assert(encode_name_bytes(suffix) =~= seq![lab.len() as u8] + lab
                    + encode_name_bytes(suffix2));
                assert(out@ =~= out0 + encode_name_bytes(suffix));
                assert forall|i: int|
                    0 <= i < split_labels(suffix).len() implies (#[trigger] split_labels(
                    suffix,
                )[i]).len() <= 63 by {
                    if i > 0 {
                        assert(split_labels(suffix)[i] == rest_labels[i - 1]);
                    }
                }
            } else {
                let bad = choose|i: int|
                    0 <= i < rest_labels.len() && (#[trigger] rest_labels[i]).len() > 63;
                assert(split_labels(suffix)[bad + 1] == rest_labels[bad]);
            }
        }
        ok
    }
}

/// Encodes a dotted domain name for the wire: each label as a length byte
/// and its bytes, closed by a zero byte. Rejects non-ASCII text and any
/// label longer than 63 bytes.
pub fn encode_dns_name(name: &str) -> (r: Result<Vec<u8>, DnsError>)
    ensures
        r is Ok <==> is_ascii(name) && labels_within_limit(char_bytes(name@)),
        r matches Ok(v) ==> v@ == encode_name_bytes(char_bytes(name@)),
        r matches Err(e) ==> e == DnsError::InvalidName,
{
    if !name.is_ascii() {
        return Err(DnsError::InvalidName);
    }
    let bytes = name.as_bytes();
    proof {
        is_ascii_spec_bytes(name);
        assert(bytes@ =~= char_bytes(name@));
    }
    let mut out: Vec<u8> = Vec::new();
    let ok = encode_labels_into(bytes, 0, &mut out);
    proof {
        assert(bytes@.skip(0) =~= bytes@);
    }
    if ok {
        Ok(out)
    } else {
        Err(DnsError::InvalidName)
    }
}

/// The absolute offset a compression pointer at `pos` names: the low six
/// bits of the pointer byte and all eight of the next byte, big-endian.
pub open spec fn pointer_target(buf: Seq<u8>, pos: int) -> int {
    (buf[pos] as int - 192) * 256 + buf[pos + 1] as int
}

/// Decodes the labels of a name at `pos`, following pointers, with `hops`
/// pointer hops still allowed. Returns the name's bytes and the count of
/// bytes consumed at `pos` itself.
fn decode_name_inner(buf: &[u8], pos: usize, hops: u32) -> (r: Result<(Vec<u8>, usize), DnsError>)
    ensures
        r is Ok <==> spec_decode_name(buf@, pos as int, hops as nat) is Some,
        r matches Ok(p) ==> spec_decode_name(buf@, pos as int, hops as nat) == Some(
            (p.0@, p.1 as int),
        ) && pos + p.1 <= buf@.len() && 1 <= p.1 && ascii_bytes(p.0@),
        r matches Err(e) ==> e == DnsError::MalformedMessage,
    decreases hops, buf@.len() - pos,
{
    if pos >= buf.len() {
        return Err(DnsError::MalformedMessage);
    }
    let len_byte = buf[pos];
    if len_byte == 0 {
        return Ok((Vec::new(), 1));
    }
    if len_byte >= 192 {
        if pos + 1 >= buf.len() || hops == 0 {
            return Err(DnsError::MalformedMessage);
        }
        let target = ((len_byte - 192) as usize) * 256 + (buf[pos + 1] as usize);
        match decode_name_inner(buf, target, hops - 1) {
            Ok((nm, _inner_used)) => Ok((nm, 2)),
            Err(e) => Err(e),
        }
    } else {
        let lab_len = len_byte as usize;
        if lab_len > buf.len() - (pos + 1) {
            return Err(DnsError::MalformedMessage);
        }
        let ghost lab = buf@.subrange(pos + 1, pos + 1 + lab_len);
        let mut nm: Vec<u8> = Vec::new();
        let mut j: usize = 0;
        while j < lab_len
            invariant
                j <= lab_len,
                pos < buf@.len(),
                pos + 1 + lab_len <= buf@.len(),
                buf@.len() <= usize::MAX,
                1 <= lab_len <= 191,
                buf@[pos as int] == lab_len as u8,
                lab == buf@.subrange(pos + 1, pos + 1 + lab_len),
                nm@ == buf@.subrange(pos + 1, pos + 1 + j),
                ascii_bytes(nm@),
            decreases lab_len - j,
        {
            let b = buf[pos + 1 + j];
            if b >= 128 {
                proof {
                    assert(lab[j as int] == b);
                    assert(!ascii_bytes(lab));
                }
                return Err(DnsError::MalformedMessage);
            }
            nm.push(b);
            proof {
                assert(nm@ =~= buf@.subrange(pos + 1, pos + 1 + (j + 1)));
            }
            j += 1;
        }
        proof {
            assert(nm@ =~= lab);
        }
        let next = pos + 1 + lab_len;
        match decode_name_inner(buf, next, hops) {
            Err(e) => Err(e),
            Ok((rest, used)) => {
                let total = 1 + lab_len + used;
                if buf[next] == 0 {
                    Ok((nm, total))
                } else {
                    let ghost rest0 = rest@;
                    nm.push(46);
                    let mut rest_v = rest;
                    nm.append(&mut rest_v);
                    proof {
                        assert(nm@ =~= lab + seq![46u8] + rest0);
                    }
                    Ok((nm, total))
                }
            },
        }
    }
}

/// Decodes the (possibly compressed) domain name at `cursor_start` of the
/// message `buf`, yielding the dot-joined name text and how many bytes the
/// name occupies at that position.
pub fn decode_name(buf: &[u8], cursor_start: usize) -> (r: Result<(String, usize), DnsError>)
    ensures
        r is Ok <==> spec_decode_name(buf@, cursor_start as int, MAX_POINTER_HOPS as nat)
            is Some,
        r matches Ok(p) ==> spec_decode_name(buf@, cursor_start as int, MAX_POINTER_HOPS as nat)
            matches Some(d) && text_of(p.0@, d.0) && p.1 == d.1 && cursor_start + p.1
            <= buf@.len() && 1 <= p.1,
        r matches Err(e) ==> e == DnsError::MalformedMessage,
{
    match decode_name_inner(buf, cursor_start, MAX_POINTER_HOPS) {
        Ok((nm, used)) => {
            let s = string_from_ascii(nm);
            Ok((s, used))
        },
        Err(e) => Err(e),
    }
}

/// Reads the compression pointer at `cursor_start` and decodes the name it
/// points at, with one pointer hop already spent.
pub fn decode_compressed_name(buf: &[u8], cursor_start: usize) -> (r: Result<String, DnsError>)
    ensures
        r is Ok <==> cursor_start + 1 < buf@.len() && buf@[cursor_start as int] >= 192
            && spec_decode_name(
            buf@,
            pointer_target(buf@, cursor_start as int),
            (MAX_POINTER_HOPS - 1) as nat,
        ) is Some,
        r matches Ok(s) ==> spec_decode_name(
            buf@,
            pointer_target(buf@, cursor_start as int),
            (MAX_POINTER_HOPS - 1) as nat,
        ) matches Some(d) && text_of(s@, d.0),
        r matches Err(e) ==> e == DnsError::MalformedMessage,
{
    if cursor_start >= buf.len() || cursor_start + 1 >= buf.len() {
        return Err(DnsError::MalformedMessage);
    }
    let b0 = buf[cursor_start];
    if b0 < 192 {
        return Err(DnsError::MalformedMessage);
    }
    let target = ((b0 - 192) as usize) * 256 + (buf[cursor_start + 1] as usize);
    match decode_name_inner(buf, target, MAX_POINTER_HOPS - 1) {
        Ok((nm, _used)) => Ok(string_from_ascii(nm)),
        Err(e) => Err(e),
    }
}

/// A successful decode stays within the buffer: it consumes at least one
/// byte and never reads past the end.
pub proof fn lemma_decode_name_consumes_within(buf: Seq<u8>, pos: int, hops: nat)
    requires
        spec_decode_name(buf, pos, hops) is Some,
    ensures
        spec_decode_name(buf, pos, hops) matches Some(d) && 1 <= d.1 && pos + d.1 <= buf.len(),
    decreases hops, buf.len() - pos,
{
    let len = buf[pos] as int;
    if len == 0 {
    } else if len >= 192 {
    } else {
        lemma_decode_name_consumes_within(buf, pos + 1 + len, hops);
    }
}

/// The label list of a name is never empty.
pub(crate) proof fn lemma_split_nonempty(name: Seq<u8>)
    ensures
        split_labels(name).len() >= 1,
    decreases name.len(),
{
    if name.len() > 0 {
        lemma_split_nonempty(name.skip(1));
    }
}

/// Where the first dot sits: no dot before it, a dot at it if any exists.
proof fn lemma_first_dot_props(name: Seq<u8>)
    ensures
        0 <= first_dot(name) <= name.len(),
        forall|k: int| 0 <= k < first_dot(name) ==> name[k] != 46u8,
        first_dot(name) < name.len() ==> name[first_dot(name)] == 46u8,
    decreases name.len(),
{
    if name.len() == 0 {
    } else if name[0] == 46u8 {
    } else {
        lemma_first_dot_props(name.skip(1));
        assert forall|k: int| 0 <= k < first_dot(name) implies name[k] != 46u8 by {
            if k > 0 {
                assert(name.skip(1)[k - 1] == name[k]);
            }
        }
    }
}

/// A name whose labels are all non-empty encodes to its own length plus
/// one length byte for the first label and the final zero byte: each dot
/// is replaced by the next label's length byte.
pub proof fn lemma_encode_name_len(name: Seq<u8>)
    requires
        forall|i: int|
            0 <= i < split_labels(name).len() ==> 1 <= (#[trigger] split_labels(name)[i]).len(),
    ensures
        encode_name_bytes(name).len() == name.len() + 2,
    decreases name.len(),
{
    lemma_first_dot_props(name);
    let d = first_dot(name);
    lemma_split_at_dot(name, d);
    lemma_wire_unfold(split_labels(name));
    lemma_wire_empty();
    if d == name.len() {
        assert(split_labels(name).skip(1) =~~= Seq::<Seq<u8>>::empty());
    } else {
        let rest = name.skip(d + 1);
        assert(split_labels(name).skip(1) =~~= split_labels(rest));
        assert forall|i: int|
            0 <= i < split_labels(rest).len() implies 1 <= (#[trigger] split_labels(
            rest,
        )[i]).len() by {
            assert(split_labels(name)[i + 1] == split_labels(rest)[i]);
        }
        lemma_encode_name_len(rest);
    }
}

/// The encoding of an ASCII name within the label limit is itself ASCII:
/// length bytes stay below 64 and label bytes come from the name.
pub proof fn lemma_encode_ascii(name: Seq<u8>)
    requires
        ascii_bytes(name),
        labels_within_limit(name),
    ensures
        ascii_bytes(encode_name_bytes(name)),
    decreases name.len(),
{
    lemma_first_dot_props(name);
    let d = first_dot(name);
    lemma_split_at_dot(name, d);
    lemma_wire_unfold(split_labels(name));
    lemma_wire_empty();
    let e = encode_name_bytes(name);
    if d == name.len() {
        assert(split_labels(name)[0] == name);
        assert(split_labels(name).skip(1) =~~= Seq::<Seq<u8>>::empty());
        assert(e =~= seq![name.len() as u8] + name + seq![0u8]);
        assert forall|i: int| 0 <= i < e.len() implies (#[trigger] e[i]) < 128 by {
            if 1 <= i < 1 + name.len() {
                assert(e[i] == name[i - 1]);
            }
        }
    } else {
        let lab = name.take(d);
        let rest = name.skip(d + 1);
        assert(split_labels(name)[0] == lab);
        assert(split_labels(name).skip(1) =~~= split_labels(rest));
        assert(ascii_bytes(rest)) by {
            assert forall|i: int| 0 <= i < rest.len() implies (#[trigger] rest[i]) < 128 by {
                assert(rest[i] == name[d + 1 + i]);
            }
        }
        assert(labels_within_limit(rest)) by {
            assert forall|i: int|
                0 <= i < split_labels(rest).len() implies (#[trigger] split_labels(
                rest,
            )[i]).len() <= 63 by {
                assert(split_labels(name)[i + 1] == split_labels(rest)[i]);
            }
        }
        lemma_encode_ascii(rest);
        let er = encode_name_bytes(rest);
        assert(e =~= seq![lab.len() as u8] + lab + er);
        assert(lab.len() <= 63);
        assert forall|i: int| 0 <= i < e.len() implies (#[trigger] e[i]) < 128 by {
            if 1 <= i < 1 + lab.len() {
                assert(e[i] == lab[i - 1]);
                assert(lab[i - 1] == name[i - 1]);
            } else if i >= 1 + lab.len() {
                assert(e[i] == er[i - 1 - lab.len()]);
            }
        }
    }
}

/// Decoding an encoded name embedded in a larger message at offset `off`
/// gives back exactly that dotted name, consuming exactly the
/// encoding's length, whatever hop budget is left.
pub proof fn lemma_decode_encoded_at(buf: Seq<u8>, off: int, name: Seq<u8>, hops: nat)
    requires
        valid_name_wire(name),
        0 <= off,
        off + encode_name_bytes(name).len() <= buf.len(),
        buf.subrange(off, off + encode_name_bytes(name).len() as int) == encode_name_bytes(name),
    ensures
        spec_decode_name(buf, off, hops) == Some((name, name.len() + 2int)),
    decreases name.len(),
{
    let e = encode_name_bytes(name);
    lemma_encode_name_len(name);
    assert forall|k: int| 0 <= k < e.len() implies buf[off + k] == e[k] by {
        assert(buf.subrange(off, off + e.len() as int)[k] == buf[off + k]);
    }
    lemma_first_dot_props(name);
    lemma_split_nonempty(name);
    let d = first_dot(name);
    lemma_split_at_dot(name, d);
    lemma_wire_unfold(split_labels(name));
    lemma_wire_empty();
    if d == name.len() {
        let lab = name;
        assert(split_labels(name)[0] == lab);
        assert(1 <= d <= 63);
        assert(split_labels(name).skip(1) =~~= Seq::<Seq<u8>>::empty());
        assert(e =~= seq![lab.len() as u8] + lab + seq![0u8]);
        assert(buf.subrange(off, off + e.len() as int)[0] == buf[off + 0]);
        assert(e[0] == lab.len() as u8);
        assert(buf[off] as int == d);
        assert(buf.subrange(off + 1, off + 1 + d) =~= e.subrange(1, 1 + d));
        assert(e.subrange(1, 1 + d) =~= name);
        assert(buf.subrange(off, off + e.len() as int)[1 + d] == buf[off + (1 + d)]);
        assert(e[1 + d] == 0u8);
        assert(buf[off + 1 + d] == 0);
        assert(spec_decode_name(buf, off + 1 + d, hops) == Some((Seq::<u8>::empty(), 1int)));
        assert(spec_decode_name(buf, off, hops) == Some((name, name.len() + 2int)));
    } else {
        let lab = name.take(d);
        let rest = name.skip(d + 1);
        assert(split_labels(name) == seq![lab] + split_labels(rest));
        assert(split_labels(name)[0] == lab);
        assert(1 <= d <= 63);
        assert(split_labels(name).skip(1) =~~= split_labels(rest));
        let er = encode_name_bytes(rest);
        assert(e =~= seq![lab.len() as u8] + lab + er);
        assert(valid_name_wire(rest)) by {
            assert forall|i: int|
                0 <= i < split_labels(rest).len() implies 1 <= (#[trigger] split_labels(
                rest,
            )[i]).len() <= 63 by {
                assert(split_labels(name)[i + 1] == split_labels(rest)[i]);
            }
            assert forall|i: int| 0 <= i < rest.len() implies (#[trigger] rest[i]) < 128 by {
                assert(rest[i] == name[d + 1 + i]);
            }
        }
        let off2 = off + 1 + d;
        assert(buf.subrange(off2, off2 + er.len() as int) =~= e.subrange(1 + d, e.len() as int));
        assert(e.subrange(1 + d, e.len() as int) =~= er);
        lemma_decode_encoded_at(buf, off2, rest, hops);
        lemma_encode_name_len(rest);
        lemma_split_nonempty(rest);
        lemma_wire_unfold(split_labels(rest));
        assert(er[0] == split_labels(rest)[0].len() as u8);
        assert(1 <= split_labels(rest)[0].len() <= 63);
        assert(buf.subrange(off, off + e.len() as int)[1 + d] == buf[off + (1 + d)]);
        assert(e[1 + d] == er[0]);
        assert(buf[off2] != 0);
        assert(buf.subrange(off, off + e.len() as int)[0] == buf[off + 0]);
        assert(e[0] == lab.len() as u8);
        assert(buf[off] as int == d);
        assert(buf.subrange(off + 1, off + 1 + d) =~= e.subrange(1, 1 + d));
        assert(e.subrange(1, 1 + d) =~= lab);
        assert(lab + seq![46u8] + rest =~= name);
        assert(spec_decode_name(buf, off, hops) == Some((name, name.len() + 2int)));
    }
}

/// Round trip: encoding a well-formed dotted name and decoding the result
/// at its start yields the very name, consuming the whole encoding.
pub proof fn lemma_name_round_trip(name: Seq<u8>, hops: nat)
    requires
        valid_name_wire(name),
    ensures
        encode_name_bytes(name).len() == name.len() + 2,
        spec_decode_name(encode_name_bytes(name), 0, hops) == Some((name, name.len() + 2int)),
{
    let e = encode_name_bytes(name);
    lemma_encode_name_len(name);
    assert(e.subrange(0, e.len() as int) =~= e);
    lemma_decode_encoded_at(e, 0, name, hops);
}

/// Compression correctness, end to end: where a name's literal encoding
/// sits at `off` in a message and a pointer at `pos` targets `off`,
/// decoding at `pos` yields the identical name as decoding at `off`, and
/// consumes exactly 2 bytes at its own position.
pub proof fn lemma_pointer_matches_literal(
    buf: Seq<u8>,
    off: int,
    pos: int,
    name: Seq<u8>,
    hops: nat,
)
    requires
        valid_name_wire(name),
        0 <= off,
        off + encode_name_bytes(name).len() <= buf.len(),
        buf.subrange(off, off + encode_name_bytes(name).len() as int) == encode_name_bytes(name),
        0 <= pos,
        pos + 2 <= buf.len(),
        buf[pos] >= 192,
        pointer_target(buf, pos) == off,
        hops >= 1,
    ensures
        spec_decode_name(buf, off, hops) == Some((name, name.len() + 2int)),
        spec_decode_name(buf, pos, hops) == Some((name, 2int)),
{
    lemma_decode_encoded_at(buf, off, name, hops);
    lemma_decode_encoded_at(buf, off, name, (hops - 1) as nat);
    lemma_compressed_pointer(buf, pos, hops);
}

/// Compression correctness: a 2-byte pointer decodes to exactly the name
/// stored at its target, and consumes exactly 2 bytes at its own position.
pub proof fn lemma_compressed_pointer(buf: Seq<u8>, pos: int, hops: nat)
    requires
        0 <= pos,
        pos + 2 <= buf.len(),
        buf[pos] >= 192,
        hops >= 1,
        spec_decode_name(buf, pointer_target(buf, pos), (hops - 1) as nat) is Some,
    ensures
        spec_decode_name(buf, pos, hops) matches Some(p) && spec_decode_name(
            buf,
            pointer_target(buf, pos),
            (hops - 1) as nat,
        ) matches Some(q) && p.0 == q.0 && p.1 == 2,
{
    assert(buf[pos] as int >= 192);
}

} // verus!
