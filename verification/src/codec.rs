use vstd::prelude::*;
use vstd::arithmetic::div_mod::{lemma_div_denominator, lemma_fundamental_div_mod};
use crate::path::{MPathElement, elem_bytes_ok};

verus! {

/// The type of a manifest entry: a regular file, an executable, a symlink, or
/// a subtree.
#[derive(Clone, Copy, Debug, PartialEq, Eq, Structural)]
pub enum EntryKind {
    File,
    Executable,
    Symlink,
    Tree,
}

impl EntryKind {
    /// The single character that tags this kind in the serialized form.
    pub open spec fn type_char(self) -> u8 {
        match self {
            EntryKind::File => 102,  // 'f'
            EntryKind::Executable => 120,  // 'x'
            EntryKind::Symlink => 108,  // 'l'
            EntryKind::Tree => 116,  // 't'
        }
    }

    pub fn to_type_char(self) -> (r: u8)
        ensures
            r == self.type_char(),
    {
        match self {
            EntryKind::File => 102,
            EntryKind::Executable => 120,
            EntryKind::Symlink => 108,
            EntryKind::Tree => 116,
        }
    }

    pub open spec fn spec_from_type_char(c: u8) -> Option<EntryKind> {
        if c == 102 {
            Some(EntryKind::File)
        } else if c == 120 {
            Some(EntryKind::Executable)
        } else if c == 108 {
            Some(EntryKind::Symlink)
        } else if c == 116 {
            Some(EntryKind::Tree)
        } else {
            None
        }
    }

    pub fn from_type_char(c: u8) -> (r: Option<EntryKind>)
        ensures
            r == EntryKind::spec_from_type_char(c),
    {
        if c == 102 {
            Some(EntryKind::File)
        } else if c == 120 {
            Some(EntryKind::Executable)
        } else if c == 108 {
            Some(EntryKind::Symlink)
        } else if c == 116 {
            Some(EntryKind::Tree)
        } else {
            None
        }
    }
}

/// The mathematical value of one serialized listing entry.
#[verifier::ext_equal]
pub struct ListingEntryV {
    pub name: Seq<u8>,
    pub hash: u64,
    pub kind: EntryKind,
}

impl ListingEntryV {
    pub open spec fn wf(self) -> bool {
        elem_bytes_ok(self.name)
    }
}

/// One decoded entry of a persisted tree listing.
#[derive(Debug)]
pub struct ManifestEntry {
    pub name: MPathElement,
    pub hash: u64,
    pub kind: EntryKind,
}

impl View for ManifestEntry {
    type V = ListingEntryV;

    open spec fn view(&self) -> ListingEntryV {
        ListingEntryV { name: self.name@, hash: self.hash, kind: self.kind }
    }
}

impl Clone for ManifestEntry {
    fn clone(&self) -> (r: Self)
        ensures
            r@ == self@,
    {
        let r = ManifestEntry { name: self.name.clone(), hash: self.hash, kind: self.kind };
        proof {
            assert(r@ =~= self@);
        }
        r
    }
}

pub open spec fn listing_view(l: Seq<ManifestEntry>) -> Seq<ListingEntryV> {
    l.map_values(|e: ManifestEntry| e@)
}

/// 16 to the power `k`.
pub open spec fn pow16(k: nat) -> int
    decreases k,
{
    if k == 0 {
        1
    } else {
        16 * pow16((k - 1) as nat)
    }
}

proof fn lemma_pow16_pos(k: nat)
    ensures
        pow16(k) >= 1,
    decreases k,
{
    if k > 0 {
        lemma_pow16_pos((k - 1) as nat);
    }
}

proof fn lemma_pow16_16()
    ensures
        pow16(16) == 0x10000000000000000,
        pow16(15) == 0x1000000000000000,
{
    reveal_with_fuel(pow16, 17);
}

/// The hex digit (lowercase) for a value below 16.
pub open spec fn hex_digit(n: u8) -> u8 {
    if n < 10 {
        (48 + n) as u8
    } else {
        (87 + n) as u8
    }
}

pub open spec fn hex_digit_val(c: u8) -> Option<u8> {
    if 48 <= c <= 57 {
        Some((c - 48) as u8)
    } else if 97 <= c <= 102 {
        Some((c - 87) as u8)
    } else {
        None
    }
}

/// The `i`-th (big-endian) hex digit value of `h`.
pub open spec fn nibble(h: u64, i: int) -> u8 {
    (((h as int) / pow16((15 - i) as nat)) % 16) as u8
}

/// The 16 lowercase hex digits of a hash, most significant first.
pub open spec fn hex_of(h: u64) -> Seq<u8> {
    Seq::new(16, |i: int| hex_digit(nibble(h, i)))
}

/// The accumulated value of the first `n` hex digits of `s`, or `None` if one
/// of them is not a lowercase hex digit.
pub open spec fn parse_hex_rec(s: Seq<u8>, n: int) -> Option<int>
    decreases n,
{
    if n <= 0 {
        Some(0)
    } else {
        match parse_hex_rec(s, n - 1) {
            Some(v) => match hex_digit_val(s[n - 1]) {
                Some(d) => Some(v * 16 + d),
                None => None,
            },
            None => None,
        }
    }
}

pub open spec fn parse_hex(s: Seq<u8>) -> Option<int> {
    parse_hex_rec(s, 16)
}

proof fn lemma_hex_digit_roundtrip(n: u8)
    requires
        n < 16,
    ensures
        hex_digit_val(hex_digit(n)) == Some(n),
{
}

proof fn lemma_nibble_bound(h: u64, i: int)
    ensures
        nibble(h, i) < 16,
{
    let p = pow16((15 - i) as nat);
    lemma_pow16_pos((15 - i) as nat);
    lemma_fundamental_div_mod((h as int) / p, 16);
}

/// Parsing the hex digits of `h` gives back `h`: for every prefix length `n`,
/// the accumulated value is the corresponding quotient of `h`.
proof fn lemma_parse_hex_of_rec(h: u64, n: int)
    requires
        0 <= n <= 16,
    ensures
        parse_hex_rec(hex_of(h), n) == Some((h as int) / pow16((16 - n) as nat)),
    decreases n,
{
    let s = hex_of(h);
    if n == 0 {
        lemma_pow16_pos(16);
        assert((h as int) / pow16(16) == 0) by {
            lemma_pow16_16();
            lemma_fundamental_div_mod(h as int, pow16(16));
            let q = (h as int) / pow16(16);
            assert(h as int == pow16(16) * q + (h as int) % pow16(16));
            if q >= 1 {
                assert(pow16(16) * q >= pow16(16));
            }
            if q <= -1 {
                assert(pow16(16) * q <= -pow16(16));
            }
        }
    } else {
        lemma_parse_hex_of_rec(h, n - 1);
        let pn = pow16((16 - n) as nat);
        let pn1 = pow16((17 - n) as nat);
        lemma_pow16_pos((16 - n) as nat);
        lemma_pow16_pos((17 - n) as nat);
        assert(pn1 == 16 * pn);
        let d = nibble(h, n - 1);
        lemma_nibble_bound(h, n - 1);
        lemma_hex_digit_roundtrip(d);
        assert(s[n - 1] == hex_digit(d));
        // (h / pn1) * 16 + (h / pn) % 16 == h / pn
        assert((h as int) / pn1 == ((h as int) / pn) / 16) by {
            lemma_div_denominator(h as int, pn, 16);
        }
        lemma_fundamental_div_mod((h as int) / pn, 16);
    }
}

pub proof fn lemma_parse_hex_of(h: u64)
    ensures
        parse_hex(hex_of(h)) == Some(h as int),
{
    lemma_parse_hex_of_rec(h, 16);
    assert(pow16(0) == 1);
}

/// Render a hash as 16 lowercase hex digits.
pub fn hash_to_hex(h: u64) -> (r: Vec<u8>)
    ensures
        r@ == hex_of(h),
{
    let mut out: Vec<u8> = Vec::new();
    let mut p: u64 = 0x1000000000000000;
    let mut i: usize = 0;
    proof {
        lemma_pow16_16();
    }
    while i < 16
        invariant
            i <= 16,
            out@.len() == i,
            i < 16 ==> p == pow16((15 - i) as nat),
            forall|j: int| 0 <= j < i ==> out@[j] == hex_of(h)[j],
        decreases 16 - i,
    {
        proof {
            lemma_pow16_pos((15 - i) as nat);
        }
        let d = ((h / p) % 16) as u8;
        let c = if d < 10 {
            48 + d
        } else {
            87 + d
        };
        proof {
            assert(d == nibble(h, i as int));
            assert(c == hex_digit(nibble(h, i as int)));
        }
        out.push(c);
        if i < 15 {
            proof {
                assert(pow16((15 - i) as nat) == 16 * pow16((14 - i) as nat));
                assert(pow16((14 - i) as nat) >= 1) by {
                    lemma_pow16_pos((14 - i) as nat);
                }
            }
            p = p / 16;
        }
        i = i + 1;
    }
    proof {
        assert(out@ =~= hex_of(h));
    }
    out
}

/// Parse 16 hex digits (starting at `pos`) into a hash value.
pub fn hex_to_hash(bytes: &Vec<u8>, pos: usize) -> (r: Option<u64>)
    requires
        pos + 16 <= bytes@.len(),
    ensures
        match r {
            Some(h) => parse_hex_rec(bytes@.skip(pos as int), 16) == Some(h as int),
            None => parse_hex_rec(bytes@.skip(pos as int), 16) is None,
        },
{
    let ghost s = bytes@.skip(pos as int);
    let n = bytes.len();
    let mut v: u64 = 0;
    let mut i: usize = 0;
    while i < 16
        invariant
            i <= 16,
            n == bytes@.len(),
            pos + 16 <= n,
            s == bytes@.skip(pos as int),
            parse_hex_rec(s, i as int) == Some(v as int),
            (v as int) < pow16(i as nat),
        decreases 16 - i,
    {
        let c = bytes[pos + i];
        proof {
            assert(s[i as int] == bytes@[pos + i]);
        }
        let d: u8 = if 48 <= c && c <= 57 {
            c - 48
        } else if 97 <= c && c <= 102 {
            c - 87
        } else {
            proof {
                assert(hex_digit_val(s[i as int]) is None);
                assert(parse_hex_rec(s, i + 1 as int) is None);
                lemma_parse_hex_none(s, i + 1 as int, 16);
            }
            return None;
        };
        proof {
            assert(hex_digit_val(s[i as int]) == Some(d));
            assert(pow16((i + 1) as nat) == 16 * pow16(i as nat));
            lemma_pow16_pos(i as nat);
            lemma_pow16_mono((i + 1) as nat, 16);
            lemma_pow16_16();
        }
        v = v * 16 + (d as u64);
        i = i + 1;
    }
    Some(v)
}

/// Once a prefix fails to parse as hex, every longer prefix fails too.
proof fn lemma_parse_hex_none(s: Seq<u8>, n: int, m: int)
    requires
        n <= m,
        parse_hex_rec(s, n) is None,
    ensures
        parse_hex_rec(s, m) is None,
    decreases m - n,
{
    if n < m {
        lemma_parse_hex_none(s, n, m - 1);
    }
}

proof fn lemma_pow16_mono(a: nat, b: nat)
    requires
        a <= b,
    ensures
        pow16(a) <= pow16(b),
    decreases b,
{
    if a < b {
        lemma_pow16_mono(a, (b - 1) as nat);
        lemma_pow16_pos((b - 1) as nat);
    }
}

/// One serialized line: name, NUL, 16 hex digits, the type character, and a
/// newline.
pub open spec fn line_of(e: ListingEntryV) -> Seq<u8> {
    e.name + seq![0u8] + hex_of(e.hash) + seq![e.kind.type_char()] + seq![10u8]
}

/// The canonical byte encoding of a listing: its lines in order.
pub open spec fn encode_listing(l: Seq<ListingEntryV>) -> Seq<u8>
    decreases l.len(),
{
    if l.len() == 0 {
        Seq::empty()
    } else {
        line_of(l[0]) + encode_listing(l.skip(1))
    }
}

pub proof fn lemma_encode_append(a: Seq<ListingEntryV>, b: Seq<ListingEntryV>)
    ensures
        encode_listing(a + b) == encode_listing(a) + encode_listing(b),
    decreases a.len(),
{
    if a.len() == 0 {
        assert(a + b =~= b);
        assert(encode_listing(a) + encode_listing(b) =~= encode_listing(b));
    } else {
        assert((a + b).skip(1) =~= a.skip(1) + b);
        lemma_encode_append(a.skip(1), b);
        assert(encode_listing(a + b) =~= encode_listing(a) + encode_listing(b));
    }
}

/// Serialize a listing into its canonical byte encoding.
pub fn serialize_listing(entries: &Vec<ManifestEntry>) -> (r: Vec<u8>)
    ensures
        r@ == encode_listing(listing_view(entries@)),
{
    let mut out: Vec<u8> = Vec::new();
    let mut i: usize = 0;
    while i < entries.len()
        invariant
            i <= entries@.len(),
            out@ == encode_listing(listing_view(entries@).take(i as int)),
        decreases entries@.len() - i,
    {
        let e = &entries[i];
        let ghost pre = listing_view(entries@).take(i as int);
        let mut j: usize = 0;
        while j < e.name.bytes.len()
            invariant
                j <= e.name.bytes@.len(),
                e == entries@[i as int],
                i < entries@.len(),
                out@ == encode_listing(pre) + e.name.bytes@.take(j as int),
            decreases e.name.bytes@.len() - j,
        {
            out.push(e.name.bytes[j]);
            proof {
                assert(encode_listing(pre) + e.name.bytes@.take(j + 1 as int) =~= out@);
            }
            j = j + 1;
        }
        proof {
            assert(e.name.bytes@.take(e.name.bytes@.len() as int) =~= e.name.bytes@);
        }
        out.push(0u8);
        let hex = hash_to_hex(e.hash);
        let mut k: usize = 0;
        while k < hex.len()
            invariant
                k <= hex@.len(),
                hex@ == hex_of(e.hash),
                e == entries@[i as int],
                i < entries@.len(),
                out@ == encode_listing(pre) + e.name.bytes@ + seq![0u8] + hex@.take(k as int),
            decreases hex@.len() - k,
        {
            out.push(hex[k]);
            proof {
                assert(encode_listing(pre) + e.name.bytes@ + seq![0u8] + hex@.take(k + 1 as int)
                    =~= out@);
            }
            k = k + 1;
        }
        proof {
            assert(hex@.take(hex@.len() as int) =~= hex@);
        }
        out.push(e.kind.to_type_char());
        out.push(10u8);
        proof {
            let lv = listing_view(entries@);
            let single = seq![lv[i as int]];
            assert(out@ =~= encode_listing(pre) + line_of(lv[i as int]));
            assert(lv.take(i + 1 as int) =~= lv.take(i as int) + single);
            lemma_encode_append(lv.take(i as int), single);
            assert(single.skip(1) =~= Seq::<ListingEntryV>::empty());
            assert(encode_listing(single.skip(1)) =~= Seq::<u8>::empty());
            assert(single[0] == lv[i as int]);
            assert(encode_listing(single) =~= line_of(lv[i as int]));
        }
        i = i + 1;
    }
    proof {
        assert(listing_view(entries@).take(entries@.len() as int) =~= listing_view(entries@));
    }
    out
}

/// The index of the first NUL byte of `s`, or -1 if there is none.
pub open spec fn find_nul(s: Seq<u8>) -> int
    decreases s.len(),
{
    if s.len() == 0 {
        -1
    } else if s[0] == 0 {
        0
    } else {
        let r = find_nul(s.skip(1));
        if r < 0 {
            -1
        } else {
            1 + r
        }
    }
}

pub proof fn lemma_find_nul(s: Seq<u8>)
    ensures
        find_nul(s) == -1 ==> forall|i: int| 0 <= i < s.len() ==> s[i] != 0,
        find_nul(s) >= 0 ==> 0 <= find_nul(s) < s.len() && s[find_nul(s)] == 0 && forall|i: int|
            0 <= i < find_nul(s) ==> s[i] != 0,
    decreases s.len(),
{
    if s.len() > 0 && s[0] != 0 {
        lemma_find_nul(s.skip(1));
        let r = find_nul(s.skip(1));
        if r < 0 {
            assert forall|i: int| 0 <= i < s.len() implies s[i] != 0 by {
                if i > 0 {
                    assert(s.skip(1)[i - 1] == s[i]);
                }
            }
        } else {
            assert(s[1 + r] == s.skip(1)[r]);
            assert forall|i: int| 0 <= i < 1 + r implies s[i] != 0 by {
                if i > 0 {
                    assert(s.skip(1)[i - 1] == s[i]);
                }
            }
        }
    }
}

/// `find_nul` is determined by the first-NUL characterization.
pub proof fn lemma_find_nul_at(s: Seq<u8>, k: int)
    requires
        0 <= k < s.len(),
        s[k] == 0,
        forall|i: int| 0 <= i < k ==> s[i] != 0,
    ensures
        find_nul(s) == k,
    decreases s.len(),
{
    if k > 0 {
        lemma_find_nul_at(s.skip(1), k - 1);
    }
}

/// Decode a canonical byte encoding back into listing entries, or `None` if
/// the bytes are not a well-formed encoding.
pub open spec fn decode_listing(b: Seq<u8>) -> Option<Seq<ListingEntryV>>
    decreases b.len(),
{
    if b.len() == 0 {
        Some(Seq::empty())
    } else {
        let k = find_nul(b);
        if k < 1 {
            None
        } else {
            let name = b.take(k);
            if !elem_bytes_ok(name) {
                None
            } else if b.len() < k + 19 {
                None
            } else {
                let hex = b.subrange(k + 1, k + 17);
                match parse_hex(hex) {
                    None => None,
                    Some(h) => match EntryKind::spec_from_type_char(b[k + 17]) {
                        None => None,
                        Some(kind) => if b[k + 18] != 10 {
                            None
                        } else {
                            match decode_listing(b.skip(k + 19)) {
                                None => None,
                                Some(rest) => Some(
                                    seq![ListingEntryV { name, hash: h as u64, kind }] + rest,
                                ),
                            }
                        },
                    },
                }
            }
        }
    }
}

/// Every name a decoder accepts is a well-formed path element.
pub proof fn lemma_decode_names_wf(b: Seq<u8>)
    requires
        decode_listing(b) is Some,
    ensures
        forall|i: int|
            0 <= i < decode_listing(b).unwrap().len() ==> elem_bytes_ok(
                (#[trigger] decode_listing(b).unwrap()[i]).name,
            ),
    decreases b.len(),
{
    if b.len() > 0 {
        let k = find_nul(b);
        lemma_decode_names_wf(b.skip(k + 19));
        let l = decode_listing(b).unwrap();
        let rest = decode_listing(b.skip(k + 19)).unwrap();
        assert forall|i: int| 0 <= i < l.len() implies elem_bytes_ok((#[trigger] l[i]).name) by {
            if i > 0 {
                assert(l[i] == rest[i - 1]);
            }
        }
    }
}

/// Decoding inverts encoding on well-formed listings.
pub proof fn lemma_decode_encode(l: Seq<ListingEntryV>)
    requires
        forall|i: int| 0 <= i < l.len() ==> (#[trigger] l[i]).wf(),
    ensures
        decode_listing(encode_listing(l)) == Some(l),
    decreases l.len(),
{
    if l.len() == 0 {
    } else {
        let e = l[0];
        let b = encode_listing(l);
        let line = line_of(e);
        let k = e.name.len() as int;
        assert(b =~= line + encode_listing(l.skip(1)));
        assert(line.len() == k + 19);
        // The first NUL of the whole encoding sits right after the name.
        assert(b[k] == 0);
        assert(forall|i: int| 0 <= i < k ==> b[i] == e.name[i] && b[i] != 0);
        lemma_find_nul_at(b, k);
        assert(b.take(k) =~= e.name);
        assert(b.subrange(k + 1, k + 17) =~= hex_of(e.hash));
        lemma_parse_hex_of(e.hash);
        assert(b[k + 17] == e.kind.type_char());
        assert(EntryKind::spec_from_type_char(e.kind.type_char()) == Some(e.kind));
        assert(b[k + 18] == 10);
        assert(b.skip(k + 19) =~= encode_listing(l.skip(1)));
        lemma_decode_encode(l.skip(1));
        assert(seq![ListingEntryV { name: e.name, hash: e.hash, kind: e.kind }] + l.skip(1) =~= l)
            by {
            assert(ListingEntryV { name: e.name, hash: e.hash, kind: e.kind } =~= e);
        }
    }
}

fn parse_one_name(bytes: &Vec<u8>, pos: usize) -> (r: Option<usize>)
    requires
        pos <= bytes@.len(),
    ensures
        match r {
            Some(k) => {
                let s = bytes@.skip(pos as int);
                &&& pos <= k < bytes@.len()
                &&& find_nul(s) == k - pos
                &&& k - pos >= 1
                &&& elem_bytes_ok(s.take(k - pos))
            },
            None => {
                let s = bytes@.skip(pos as int);
                find_nul(s) < 1 || !elem_bytes_ok(s.take(find_nul(s)))
            },
        },
{
    let ghost s = bytes@.skip(pos as int);
    let mut i: usize = pos;
    while i < bytes.len()
        invariant
            pos <= i <= bytes@.len(),
            s == bytes@.skip(pos as int),
            forall|j: int|
                0 <= j < i - pos ==> s[j] != 0 && s[j] != 10 && s[j] != 47,
        decreases bytes@.len() - i,
    {
        let c = bytes[i];
        proof {
            assert(s[i - pos] == bytes@[i as int]);
        }
        if c == 0 {
            proof {
                lemma_find_nul_at(s, i - pos);
            }
            if i == pos {
                return None;
            }
            proof {
                assert(elem_bytes_ok(s.take(i - pos))) by {
                    assert(forall|j: int|
                        0 <= j < i - pos ==> s.take(i - pos)[j] == s[j]);
                }
            }
            return Some(i);
        }
        if c == 10 || c == 47 {
            // The name region may not hold a newline or slash.
            proof {
                lemma_find_nul(s);
                if find_nul(s) >= 1 {
                    assert(s[i - pos] != 0);
                    assert(i - pos < find_nul(s));
                    assert(s.take(find_nul(s))[i - pos] == s[i - pos]);
                }
            }
            return None;
        }
        i = i + 1;
    }
    proof {
        lemma_find_nul(s);
        if find_nul(s) >= 0 {
            assert(s[find_nul(s)] == 0);
        }
    }
    None
}

fn parse_from(bytes: &Vec<u8>, pos: usize, out: &mut Vec<ManifestEntry>) -> (ok: bool)
    requires
        pos <= bytes@.len(),
    ensures
        match decode_listing(bytes@.skip(pos as int)) {
            Some(l) => ok && listing_view(final(out)@) == listing_view(old(out)@) + l,
            None => !ok,
        },
    decreases bytes@.len() - pos,
{
    let ghost s = bytes@.skip(pos as int);
    if pos == bytes.len() {
        proof {
            assert(s.len() == 0);
            assert(listing_view(out@) + Seq::<ListingEntryV>::empty() =~= listing_view(out@));
        }
        return true;
    }
    let k_abs = match parse_one_name(bytes, pos) {
        Some(k) => k,
        None => {
            return false;
        },
    };
    let k = k_abs - pos;
    proof {
        assert(find_nul(s) == k);
    }
    if bytes.len() - k_abs < 19 {
        return false;
    }
    proof {
        assert(s.subrange(k as int + 1, k as int + 17) =~= bytes@.skip((k_abs + 1) as int).take(
            16,
        ));
        assert(bytes@.skip((k_abs + 1) as int).take(16) =~= bytes@.subrange(
            (k_abs + 1) as int,
            (k_abs + 17) as int,
        ));
    }
    let hash = match hex_to_hash(bytes, k_abs + 1) {
        Some(h) => h,
        None => {
            proof {
                assert(bytes@.skip((k_abs + 1) as int).take(16) =~= bytes@.skip(
                    (k_abs + 1) as int,
                ).take(16));
                assert(parse_hex(s.subrange(k as int + 1, k as int + 17)) is None) by {
                    lemma_parse_hex_prefix(bytes@.skip((k_abs + 1) as int), 16);
                }
            }
            return false;
        },
    };
    proof {
        lemma_parse_hex_prefix(bytes@.skip((k_abs + 1) as int), 16);
    }
    let kind = match EntryKind::from_type_char(bytes[k_abs + 17]) {
        Some(kind) => kind,
        None => {
            proof {
                assert(s[k as int + 17] == bytes@[(k_abs + 17) as int]);
            }
            return false;
        },
    };
    proof {
        assert(s[k as int + 17] == bytes@[(k_abs + 17) as int]);
        assert(s[k as int + 18] == bytes@[(k_abs + 18) as int]);
    }
    if bytes[k_abs + 18] != 10 {
        return false;
    }
    let name_bytes = crate::path::copy_range(bytes, pos, k_abs);
    proof {
        assert(name_bytes@ =~= s.take(k as int));
    }
    let entry = ManifestEntry { name: MPathElement { bytes: name_bytes }, hash, kind };
    out.push(entry);
    let ghost mid = out@;
    let ok = parse_from(bytes, k_abs + 19, out);
    proof {
        assert(bytes@.skip((k_abs + 19) as int) =~= s.skip(k as int + 19));
        match decode_listing(s.skip(k as int + 19)) {
            Some(rest) => {
                assert(listing_view(mid) =~= listing_view(old(out)@) + seq![entry@]);
                let name = s.take(k as int);
                assert(decode_listing(s) == Some(
                    seq![ListingEntryV { name, hash: hash, kind }] + rest,
                ));
                assert(entry@ =~= ListingEntryV { name, hash: hash, kind });
                assert(listing_view(old(out)@) + seq![entry@] + rest =~= listing_view(old(out)@)
                    + (seq![entry@] + rest));
            },
            None => {},
        }
    }
    ok
}

/// `parse_hex_rec` only reads the first 16 bytes, so it agrees on a sequence
/// and its 16-byte prefix.
proof fn lemma_parse_hex_prefix(s: Seq<u8>, n: int)
    requires
        0 <= n <= 16 <= s.len(),
    ensures
        parse_hex_rec(s.take(16), n) == parse_hex_rec(s, n),
    decreases n,
{
    if n > 0 {
        lemma_parse_hex_prefix(s, n - 1);
        assert(s.take(16)[n - 1] == s[n - 1]);
    }
}

/// Parse a canonical byte encoding into listing entries. Succeeds exactly on
/// byte strings the decoder accepts.
pub fn parse_listing(bytes: &Vec<u8>) -> (r: Option<Vec<ManifestEntry>>)
    ensures
        match r {
            Some(v) => decode_listing(bytes@) == Some(listing_view(v@)),
            None => decode_listing(bytes@) is None,
        },
{
    let mut out: Vec<ManifestEntry> = Vec::new();
    proof {
        assert(bytes@.skip(0) =~= bytes@);
    }
    let ok = parse_from(bytes, 0, &mut out);
    if ok {
        proof {
            match decode_listing(bytes@) {
                Some(l) => {
                    assert(listing_view(out@) =~= l);
                },
                None => {},
            }
        }
        Some(out)
    } else {
        None
    }
}

} // verus!
