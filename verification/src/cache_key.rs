//! The key under which a node's results are cached: a `DefaultHasher`
//! digest of the settings of the node's source (if it has one) followed by
//! the node's own settings.
use std::collections::hash_map::DefaultHasher;
use std::hash::Hasher;
use vstd::prelude::*;
use vstd::std_specs::hash::DefaultHasherAdditionalSpecFns;
use vstd::utf8::encode_utf8;

use crate::node::NodeSettings;

verus! {

/// The eight bytes of `x`, least significant first.
pub open spec fn le_bytes(x: u64) -> Seq<u8> {
    seq![
        x as u8,
        (x >> 8u64) as u8,
        (x >> 16u64) as u8,
        (x >> 24u64) as u8,
        (x >> 32u64) as u8,
        (x >> 40u64) as u8,
        (x >> 48u64) as u8,
        (x >> 56u64) as u8,
    ]
}

/// The writes that stand for an optional text: a marker, then (when the
/// text is there) its UTF-8 bytes and a terminator.
pub open spec fn text_writes(o: Option<String>) -> Seq<Seq<u8>> {
    match o {
        None => seq![seq![0u8]],
        Some(s) => seq![seq![1u8], encode_utf8(s@), seq![0xffu8]],
    }
}

/// The pieces of a path's bytes between separators (`/`), empty pieces
/// included: `a//b` has the pieces `a`, ``, `b`.
pub open spec fn path_pieces(b: Seq<u8>) -> Seq<Seq<u8>>
    decreases b.len(),
{
    if b.len() == 0 {
        seq![Seq::<u8>::empty()]
    } else {
        let rest = path_pieces(b.drop_last());
        if b.last() == 47u8 {
            rest.push(Seq::<u8>::empty())
        } else {
            rest.update(rest.len() - 1, rest.last().push(b.last()))
        }
    }
}

/// Whether the piece at index `i` names a component of the path: empty
/// pieces (repeated or trailing separators) and `.` pieces after the first
/// name nothing, as for `std::path::Path`, whose components, equality and
/// hash all leave them out.
pub open spec fn names_component(piece: Seq<u8>, i: int) -> bool {
    piece.len() > 0 && !(i > 0 && piece == seq![46u8])
}

/// The bytes of the component pieces among `pieces`, run together.
pub open spec fn component_bytes(pieces: Seq<Seq<u8>>) -> Seq<u8>
    decreases pieces.len(),
{
    if pieces.len() == 0 {
        seq![]
    } else {
        let earlier = component_bytes(pieces.drop_last());
        if names_component(pieces.last(), pieces.len() - 1) {
            earlier + pieces.last()
        } else {
            earlier
        }
    }
}

/// The writes that stand for an optional path: a marker, then (when the
/// path is there) the bytes of its components run together and their
/// count, the way `std::path::Path` feeds a hasher. Paths with the same
/// components (`a/b.csv`, `a//b.csv`, `a/./b.csv/`) give the same writes.
pub open spec fn path_writes(o: Option<String>) -> Seq<Seq<u8>> {
    match o {
        None => seq![seq![0u8]],
        Some(p) => {
            let joined = component_bytes(path_pieces(encode_utf8(p@)));
            seq![seq![1u8], joined, le_bytes(joined.len() as u64)]
        },
    }
}

/// The writes that stand for an optional number.
pub open spec fn number_writes(o: Option<u64>) -> Seq<Seq<u8>> {
    match o {
        None => seq![seq![0u8]],
        Some(x) => seq![seq![1u8], le_bytes(x)],
    }
}

/// The writes that stand for a node's settings: the variant's index, then
/// its parameters in declaration order.
pub open spec fn settings_writes(s: NodeSettings) -> Seq<Seq<u8>> {
    match s {
        NodeSettings::LoadData(d) => seq![seq![0u8]] + text_writes(d.separator) + path_writes(
            d.path,
        ),
        NodeSettings::Multiply(m) => seq![seq![1u8]] + number_writes(
            match m.times {
                Some(t) => Some(t as u64),
                None => None,
            },
        ),
        NodeSettings::Sum(_) => seq![seq![2u8]],
        NodeSettings::Tail(t) => seq![seq![3u8]] + number_writes(
            match t.row_count {
                Some(n) => Some(n as u64),
                None => None,
            },
        ),
        NodeSettings::Head(h) => seq![seq![4u8]] + number_writes(
            match h.row_count {
                Some(n) => Some(n as u64),
                None => None,
            },
        ),
    }
}

/// All that is fed to the hasher for a node: its source's settings, when it
/// has a source, then its own.
pub open spec fn key_writes(source: Option<NodeSettings>, settings: NodeSettings) -> Seq<Seq<u8>> {
    match source {
        Some(src) => settings_writes(src) + settings_writes(settings),
        None => settings_writes(settings),
    }
}

/// The cache key of a node with the given source settings and settings.
pub open spec fn cache_key(source: Option<NodeSettings>, settings: NodeSettings) -> u64 {
    DefaultHasher::spec_finish(key_writes(source, settings))
}

fn u64_bytes(x: u64) -> (v: Vec<u8>)
    ensures
        v@ == le_bytes(x),
{
    let mut v: Vec<u8> = Vec::new();
    v.push(x as u8);
    v.push((x >> 8u64) as u8);
    v.push((x >> 16u64) as u8);
    v.push((x >> 24u64) as u8);
    v.push((x >> 32u64) as u8);
    v.push((x >> 40u64) as u8);
    v.push((x >> 48u64) as u8);
    v.push((x >> 56u64) as u8);
    assert(v@ =~= le_bytes(x));
    v
}

fn write_byte(h: &mut DefaultHasher, b: u8)
    ensures
        final(h)@ == old(h)@.push(seq![b]),
{
    let mut v: Vec<u8> = Vec::new();
    v.push(b);
    assert(v@ =~= seq![b]);
    h.write(v.as_slice());
}

fn write_text(h: &mut DefaultHasher, o: &Option<String>)
    ensures
        final(h)@ == old(h)@ + text_writes(*o),
{
    match o {
        None => {
            write_byte(h, 0u8);
            assert(old(h)@.push(seq![0u8]) =~= old(h)@ + text_writes(*o));
        },
        Some(s) => {
            write_byte(h, 1u8);
            h.write(s.as_str().as_bytes());
            write_byte(h, 0xffu8);
            assert(final(h)@ =~= old(h)@ + text_writes(*o));
        },
    }
}

fn names_component_exec(piece: &Vec<u8>, i: usize) -> (r: bool)
    ensures
        r == names_component(piece@, i as int),
{
    if piece.len() == 0 {
        false
    } else if i > 0 && piece.len() == 1 && piece[0] == 46u8 {
        assert(piece@ =~= seq![46u8]);
        false
    } else {
        true
    }
}

fn write_path(h: &mut DefaultHasher, o: &Option<String>)
    ensures
        final(h)@ == old(h)@ + path_writes(*o),
{
    match o {
        None => {
            write_byte(h, 0u8);
            assert(final(h)@ =~= old(h)@ + path_writes(*o));
        },
        Some(p) => {
            write_byte(h, 1u8);
            let bytes = p.as_str().as_bytes();
            let mut joined: Vec<u8> = Vec::new();
            let mut current: Vec<u8> = Vec::new();
            let mut count: usize = 0;
            let mut i: usize = 0;
            assert(bytes@.take(0) =~= Seq::<u8>::empty());
            while i < bytes.len()
                invariant
                    i <= bytes@.len(),
                    count <= i,
                    path_pieces(bytes@.take(i as int)).len() == count + 1,
                    path_pieces(bytes@.take(i as int)).last() == current@,
                    joined@ == component_bytes(path_pieces(bytes@.take(i as int)).drop_last()),
                decreases bytes.len() - i,
            {
                let ghost ps = path_pieces(bytes@.take(i as int));
                assert(bytes@.take(i + 1).drop_last() =~= bytes@.take(i as int));
                let b = bytes[i];
                if b == 47u8 {
                    assert(path_pieces(bytes@.take(i + 1)) == ps.push(Seq::<u8>::empty()));
                    assert(ps.push(Seq::<u8>::empty()).drop_last() =~= ps);
                    assert(ps.drop_last().push(ps.last()) =~= ps);
                    if names_component_exec(&current, count) {
                        joined.append(&mut current);
                    }
                    assert(joined@ =~= component_bytes(ps));
                    current = Vec::new();
                    count = count + 1;
                } else {
                    let ghost np = ps.update(ps.len() - 1, ps.last().push(b));
                    assert(path_pieces(bytes@.take(i + 1)) == np);
                    assert(np.drop_last() =~= ps.drop_last());
                    current.push(b);
                }
                i = i + 1;
            }
            let ghost ps = path_pieces(bytes@.take(i as int));
            assert(bytes@.take(i as int) =~= bytes@);
            assert(ps.drop_last().push(ps.last()) =~= ps);
            if names_component_exec(&current, count) {
                joined.append(&mut current);
            }
            assert(joined@ =~= component_bytes(ps));
            h.write(joined.as_slice());
            let len_bytes = u64_bytes(joined.len() as u64);
            h.write(len_bytes.as_slice());
            assert(final(h)@ =~= old(h)@ + path_writes(*o));
        },
    }
}

fn write_number(h: &mut DefaultHasher, o: Option<u64>)
    ensures
        final(h)@ == old(h)@ + number_writes(o),
{
    match o {
        None => {
            write_byte(h, 0u8);
            assert(final(h)@ =~= old(h)@ + number_writes(o));
        },
        Some(x) => {
            write_byte(h, 1u8);
            let bytes = u64_bytes(x);
            h.write(bytes.as_slice());
            assert(final(h)@ =~= old(h)@ + number_writes(o));
        },
    }
}

fn write_settings(h: &mut DefaultHasher, s: &NodeSettings)
    ensures
        final(h)@ == old(h)@ + settings_writes(*s),
{
    match s {
        NodeSettings::LoadData(d) => {
            write_byte(h, 0u8);
            write_text(h, &d.separator);
            write_path(h, &d.path);
        },
        NodeSettings::Multiply(m) => {
            write_byte(h, 1u8);
            let times = match m.times {
                Some(t) => Some(t as u64),
                None => None,
            };
            write_number(h, times);
        },
        NodeSettings::Sum(_) => {
            write_byte(h, 2u8);
        },
        NodeSettings::Tail(t) => {
            write_byte(h, 3u8);
            let n = match t.row_count {
                Some(n) => Some(n as u64),
                None => None,
            };
            write_number(h, n);
        },
        NodeSettings::Head(hd) => {
            write_byte(h, 4u8);
            let n = match hd.row_count {
                Some(n) => Some(n as u64),
                None => None,
            };
            write_number(h, n);
        },
    }
    assert(final(h)@ =~= old(h)@ + settings_writes(*s));
}

/// The cache key of a node whose source has the settings `source` (if it
/// has a source) and whose own settings are `settings`.
pub fn compute_cache_key(source: Option<&NodeSettings>, settings: &NodeSettings) -> (k: u64)
    ensures
        k == cache_key(
            match source {
                Some(s) => Some(*s),
                None => None,
            },
            *settings,
        ),
{
    let mut hasher = DefaultHasher::new();
    match source {
        Some(src) => {
            write_settings(&mut hasher, src);
        },
        None => {},
    }
    write_settings(&mut hasher, settings);
    let ghost src_opt = match source {
        Some(s) => Some(*s),
        None => None,
    };
    assert(hasher@ =~= key_writes(src_opt, *settings));
    hasher.finish()
}

/// The writes that stand for a list of digests: each digest's eight bytes.
pub open spec fn digest_writes(digests: Seq<u64>) -> Seq<Seq<u8>> {
    Seq::new(digests.len(), |i: int| le_bytes(digests[i]))
}

/// A digest of a node's settings followed by the digests of its inputs.
pub fn compute_input_hash(settings: &NodeSettings, input_hashes: &[u64]) -> (h: u64)
    ensures
        h == DefaultHasher::spec_finish(
            settings_writes(*settings) + digest_writes(input_hashes@),
        ),
{
    let mut hasher = DefaultHasher::new();
    write_settings(&mut hasher, settings);
    let mut i: usize = 0;
    while i < input_hashes.len()
        invariant
            i <= input_hashes@.len(),
            hasher@ == settings_writes(*settings) + digest_writes(input_hashes@.take(i as int)),
        decreases input_hashes.len() - i,
    {
        let bytes = u64_bytes(input_hashes[i]);
        hasher.write(bytes.as_slice());
        assert(digest_writes(input_hashes@.take(i + 1)) =~= digest_writes(
            input_hashes@.take(i as int),
        ).push(le_bytes(input_hashes@[i as int])));
        i = i + 1;
    }
    assert(input_hashes@.take(input_hashes@.len() as int) =~= input_hashes@);
    hasher.finish()
}

/// A number's eight bytes give the number back.
pub proof fn lemma_le_bytes_injective(x: u64, y: u64)
    requires
        le_bytes(x) == le_bytes(y),
    ensures
        x == y,
{
    assert(le_bytes(x)[0] == le_bytes(y)[0]);
    assert(le_bytes(x)[1] == le_bytes(y)[1]);
    assert(le_bytes(x)[2] == le_bytes(y)[2]);
    assert(le_bytes(x)[3] == le_bytes(y)[3]);
    assert(le_bytes(x)[4] == le_bytes(y)[4]);
    assert(le_bytes(x)[5] == le_bytes(y)[5]);
    assert(le_bytes(x)[6] == le_bytes(y)[6]);
    assert(le_bytes(x)[7] == le_bytes(y)[7]);
    assert(x == y) by (bit_vector)
        requires
            x as u8 == y as u8,
            (x >> 8u64) as u8 == (y >> 8u64) as u8,
            (x >> 16u64) as u8 == (y >> 16u64) as u8,
            (x >> 24u64) as u8 == (y >> 24u64) as u8,
            (x >> 32u64) as u8 == (y >> 32u64) as u8,
            (x >> 40u64) as u8 == (y >> 40u64) as u8,
            (x >> 48u64) as u8 == (y >> 48u64) as u8,
            (x >> 56u64) as u8 == (y >> 56u64) as u8,
    ;
}

proof fn lemma_number_writes_injective(a: Option<u64>, b: Option<u64>)
    requires
        number_writes(a) == number_writes(b),
    ensures
        a == b,
{
    match (a, b) {
        (Some(x), Some(y)) => {
            assert(number_writes(a)[1] == le_bytes(x));
            assert(number_writes(b)[1] == le_bytes(y));
            lemma_le_bytes_injective(x, y);
        },
        (None, None) => {},
        (Some(x), None) => {
            assert(number_writes(a).len() == 2);
            assert(number_writes(b).len() == 1);
        },
        (None, Some(y)) => {
            assert(number_writes(a).len() == 1);
            assert(number_writes(b).len() == 2);
        },
    }
}

proof fn lemma_text_writes_injective(a: Option<String>, b: Option<String>)
    requires
        text_writes(a) == text_writes(b),
    ensures
        a is Some <==> b is Some,
        a is Some ==> a->0@ == b->0@,
{
    match (a, b) {
        (Some(x), Some(y)) => {
            assert(text_writes(a)[1] == encode_utf8(x@));
            assert(text_writes(b)[1] == encode_utf8(y@));
            vstd::utf8::encode_utf8_decode_utf8(x@);
            vstd::utf8::encode_utf8_decode_utf8(y@);
        },
        (None, None) => {},
        (Some(x), None) => {
            assert(text_writes(a).len() == 3);
            assert(text_writes(b).len() == 1);
        },
        (None, Some(y)) => {
            assert(text_writes(a).len() == 1);
            assert(text_writes(b).len() == 3);
        },
    }
}

/// The writes for a node's settings tell the settings apart: settings with
/// the same writes are of the same kind with the same parameters, except
/// that two loader paths count as the same when they have the same
/// components (as `std::path::Path` hashes them). So, before hashing, a
/// change of any parameter changes the cache key.
pub proof fn lemma_settings_writes_separate(a: NodeSettings, b: NodeSettings)
    requires
        settings_writes(a) == settings_writes(b),
    ensures
        crate::node::variant_index(a) == crate::node::variant_index(b),
        match (a, b) {
            (NodeSettings::Multiply(m), NodeSettings::Multiply(n)) => m.times == n.times,
            (NodeSettings::Tail(t), NodeSettings::Tail(u)) => t.row_count == u.row_count,
            (NodeSettings::Head(h), NodeSettings::Head(g)) => h.row_count == g.row_count,
            (NodeSettings::LoadData(d), NodeSettings::LoadData(e)) => {
                &&& (d.separator is Some <==> e.separator is Some)
                &&& d.separator is Some ==> d.separator->0@ == e.separator->0@
                &&& (d.path is Some <==> e.path is Some)
                &&& d.path is Some ==> component_bytes(path_pieces(encode_utf8(d.path->0@)))
                    == component_bytes(path_pieces(encode_utf8(e.path->0@)))
            },
            _ => true,
        },
{
    let wa = settings_writes(a);
    let wb = settings_writes(b);
    assert(wa[0] == wb[0]);
    assert(wa[0][0] == wb[0][0]);
    match (a, b) {
        (NodeSettings::Multiply(m), NodeSettings::Multiply(n)) => {
            let x = match m.times {
                Some(t) => Some(t as u64),
                None => None,
            };
            let y = match n.times {
                Some(t) => Some(t as u64),
                None => None,
            };
            assert(number_writes(x) =~= wa.subrange(1, wa.len() as int));
            assert(number_writes(y) =~= wb.subrange(1, wb.len() as int));
            lemma_number_writes_injective(x, y);
            if m.times is Some && n.times is Some {
                let t = m.times->0;
                let u = n.times->0;
                assert(t == u) by (bit_vector)
                    requires
                        t as u64 == u as u64,
                ;
            }
        },
        (NodeSettings::Tail(t), NodeSettings::Tail(u)) => {
            let x = match t.row_count {
                Some(n) => Some(n as u64),
                None => None,
            };
            let y = match u.row_count {
                Some(n) => Some(n as u64),
                None => None,
            };
            assert(number_writes(x) =~= wa.subrange(1, wa.len() as int));
            assert(number_writes(y) =~= wb.subrange(1, wb.len() as int));
            lemma_number_writes_injective(x, y);
        },
        (NodeSettings::Head(h), NodeSettings::Head(g)) => {
            let x = match h.row_count {
                Some(n) => Some(n as u64),
                None => None,
            };
            let y = match g.row_count {
                Some(n) => Some(n as u64),
                None => None,
            };
            assert(number_writes(x) =~= wa.subrange(1, wa.len() as int));
            assert(number_writes(y) =~= wb.subrange(1, wb.len() as int));
            lemma_number_writes_injective(x, y);
        },
        (NodeSettings::LoadData(d), NodeSettings::LoadData(e)) => {
            let ta = text_writes(d.separator);
            let tb = text_writes(e.separator);
            let pa = path_writes(d.path);
            let pb = path_writes(e.path);
            assert(wa =~= seq![seq![0u8]] + ta + pa);
            assert(wb =~= seq![seq![0u8]] + tb + pb);
            // The marker after the tag tells whether a separator is there,
            // and so where the path's writes begin.
            assert(wa[1] == ta[0]);
            assert(wb[1] == tb[0]);
            assert(ta[0][0] == tb[0][0]);
            assert(ta.len() == tb.len());
            assert(ta =~= wa.subrange(1, 1 + ta.len() as int));
            assert(tb =~= wb.subrange(1, 1 + tb.len() as int));
            lemma_text_writes_injective(d.separator, e.separator);
            assert(pa =~= wa.subrange(1 + ta.len() as int, wa.len() as int));
            assert(pb =~= wb.subrange(1 + tb.len() as int, wb.len() as int));
            assert(pa.len() == pb.len());
            if d.path is Some && e.path is Some {
                assert(pa[1] == pb[1]);
            }
        },
        _ => {},
    }
}

/// Under the same source settings, the writes behind two nodes' cache keys
/// are the same only when the nodes' own settings give the same writes.
pub proof fn lemma_key_writes_separate(
    source: Option<NodeSettings>,
    a: NodeSettings,
    b: NodeSettings,
)
    requires
        key_writes(source, a) == key_writes(source, b),
    ensures
        settings_writes(a) == settings_writes(b),
{
    match source {
        Some(src) => {
            let n = settings_writes(src).len();
            assert(settings_writes(a) =~= key_writes(source, a).subrange(
                n as int,
                key_writes(source, a).len() as int,
            ));
            assert(settings_writes(b) =~= key_writes(source, b).subrange(
                n as int,
                key_writes(source, b).len() as int,
            ));
        },
        None => {},
    }
}

} // verus!
