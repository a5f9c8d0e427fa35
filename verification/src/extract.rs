//! Parsing of a tar stream and planning of its extraction: the shared root
//! component is stripped from every entry, paths are validated against
//! escape, and the resulting filesystem actions are handed back as plain
//! data.

use vstd::prelude::*;
use vstd::string::StringExecFns;
use crate::error::ArchiveError;

verus! {

/// An octal digit byte.
pub open spec fn is_octal_digit(c: u8) -> bool {
    48 <= c && c <= 55
}

/// The numeric value of an octal digit sequence.
pub open spec fn oct_val(s: Seq<u8>) -> nat
    decreases s.len(),
{
    if s.len() == 0 {
        0
    } else {
        oct_val(s.drop_last()) * 8 + (s.last() - 48) as nat
    }
}

/// The value of a prefix never exceeds the value of the whole numeral.
pub proof fn lemma_oct_val_mono(s: Seq<u8>, m: int)
    requires
        0 <= m <= s.len(),
    ensures
        oct_val(s.subrange(0, m)) <= oct_val(s),
    decreases s.len(),
{
    if m == s.len() {
        assert(s.subrange(0, m) =~= s);
    } else {
        let head = s.drop_last();
        lemma_oct_val_mono(head, m);
        assert(s.subrange(0, m) =~= head.subrange(0, m));
        assert(oct_val(head) * 8 >= oct_val(head));
    }
}

/// Appending one digit multiplies the value by eight and adds the digit.
pub proof fn lemma_oct_val_step(s: Seq<u8>, from: int, k: int)
    requires
        0 <= from <= k < s.len(),
    ensures
        oct_val(s.subrange(from, k + 1)) == oct_val(s.subrange(from, k)) * 8 + (s[k] - 48) as nat,
{
    let ext = s.subrange(from, k + 1);
    assert(ext.drop_last() =~= s.subrange(from, k));
    assert(ext.last() == s[k]);
}

/// The number of leading space bytes.
pub open spec fn skip_spaces(s: Seq<u8>) -> int
    decreases s.len(),
{
    if s.len() == 0 {
        0
    } else if s[0] == 32 {
        1 + skip_spaces(s.subrange(1, s.len() as int))
    } else {
        0
    }
}

pub proof fn lemma_skip_spaces(s: Seq<u8>)
    ensures
        0 <= skip_spaces(s) <= s.len(),
        skip_spaces(s) < s.len() ==> s[skip_spaces(s)] != 32,
        forall|k: int| 0 <= k < skip_spaces(s) ==> s[k] == 32,
    decreases s.len(),
{
    if s.len() == 0 {
    } else if s[0] == 32 {
        let rest = s.subrange(1, s.len() as int);
        lemma_skip_spaces(rest);
        assert forall|k: int| 0 <= k < skip_spaces(s) implies s[k] == 32 by {
            if k > 0 {
                assert(s[k] == rest[k - 1]);
            }
        }
    } else {
    }
}

/// The length of the leading octal digit run.
pub open spec fn octal_run(s: Seq<u8>) -> int
    decreases s.len(),
{
    if s.len() == 0 {
        0
    } else if is_octal_digit(s[0]) {
        1 + octal_run(s.subrange(1, s.len() as int))
    } else {
        0
    }
}

pub proof fn lemma_octal_run(s: Seq<u8>)
    ensures
        0 <= octal_run(s) <= s.len(),
        octal_run(s) < s.len() ==> !is_octal_digit(s[octal_run(s)]),
        forall|k: int| 0 <= k < octal_run(s) ==> is_octal_digit(s[k]),
    decreases s.len(),
{
    if s.len() == 0 {
    } else if is_octal_digit(s[0]) {
        let rest = s.subrange(1, s.len() as int);
        lemma_octal_run(rest);
        assert forall|k: int| 0 <= k < octal_run(s) implies is_octal_digit(s[k]) by {
            if k > 0 {
                assert(s[k] == rest[k - 1]);
            }
        }
    } else {
    }
}

/// The index of the first NUL byte, or the length if there is none.
pub open spec fn first_nul(s: Seq<u8>) -> int
    decreases s.len(),
{
    if s.len() == 0 {
        0
    } else if s[0] == 0 {
        0
    } else {
        1 + first_nul(s.subrange(1, s.len() as int))
    }
}

pub proof fn lemma_first_nul(s: Seq<u8>)
    ensures
        0 <= first_nul(s) <= s.len(),
        first_nul(s) < s.len() ==> s[first_nul(s)] == 0,
        forall|k: int| 0 <= k < first_nul(s) ==> s[k] != 0,
    decreases s.len(),
{
    if s.len() == 0 {
    } else if s[0] == 0 {
    } else {
        let rest = s.subrange(1, s.len() as int);
        lemma_first_nul(rest);
        assert forall|k: int| 0 <= k < first_nul(s) implies s[k] != 0 by {
            if k > 0 {
                assert(s[k] == rest[k - 1]);
            }
        }
    }
}

/// Everything from `d` to the end of the field is space or NUL padding.
pub open spec fn field_padding_ok(f: Seq<u8>, d: int) -> bool {
    forall|k: int| d <= k < f.len() ==> f[k] == 32 || f[k] == 0
}

/// The value of a tar octal field: optional leading spaces, a non-empty
/// octal digit run, then space or NUL padding to the end of the field.
pub open spec fn octal_field(f: Seq<u8>) -> Option<u64> {
    let a = skip_spaces(f);
    if a >= f.len() {
        None
    } else {
        let d = a + octal_run(f.subrange(a, f.len() as int));
        if d == a {
            None
        } else if !field_padding_ok(f, d) {
            None
        } else if oct_val(f.subrange(a, d)) > u64::MAX {
            None
        } else {
            Some(oct_val(f.subrange(a, d)) as u64)
        }
    }
}

/// Copies `b[from..to]` into a fresh vector.
pub fn copy_range(b: &Vec<u8>, from: usize, to: usize) -> (v: Vec<u8>)
    requires
        from <= to <= b@.len(),
    ensures
        v@ == b@.subrange(from as int, to as int),
{
    let mut v: Vec<u8> = Vec::new();
    let mut k: usize = from;
    while k < to
        invariant
            from <= k <= to <= b@.len(),
            v@ == b@.subrange(from as int, k as int),
        decreases to - k,
    {
        v.push(b[k]);
        k = k + 1;
        proof {
            assert(v@ =~= b@.subrange(from as int, k as int));
        }
    }
    v
}

/// Parses the octal field `b[from..to]`.
#[verifier::loop_isolation(false)]
fn parse_octal(b: &Vec<u8>, from: usize, to: usize) -> (r: Option<u64>)
    requires
        from <= to <= b@.len(),
    ensures
        r == octal_field(b@.subrange(from as int, to as int)),
{
    let ghost f = b@.subrange(from as int, to as int);
    proof {
        lemma_skip_spaces(f);
    }
    let mut a: usize = from;
    while a < to && b[a] == 32
        invariant
            from <= a <= to <= b@.len(),
            f == b@.subrange(from as int, to as int),
            forall|k: int| 0 <= k < a - from ==> f[k] == 32,
        decreases to - a,
    {
        proof {
            assert(f[a - from] == b@[a as int]);
        }
        a = a + 1;
    }
    proof {
        if (a - from) < skip_spaces(f) {
            assert(f[a - from] == 32);
        }
        if skip_spaces(f) < a - from {
            assert(f[skip_spaces(f)] == 32);
        }
        assert(a - from == skip_spaces(f));
    }
    if a == to {
        return None;
    }
    proof {
        lemma_octal_run(f.subrange(a - from, f.len() as int));
    }
    let ghost run = octal_run(f.subrange(a - from, f.len() as int));
    let mut d: usize = a;
    while d < to && 48 <= b[d] && b[d] <= 55
        invariant
            from <= a <= d <= to <= b@.len(),
            f == b@.subrange(from as int, to as int),
            forall|k: int| a - from <= k < d - from ==> is_octal_digit(f[k]),
        decreases to - d,
    {
        proof {
            assert(f[d - from] == b@[d as int]);
        }
        d = d + 1;
    }
    proof {
        let sub = f.subrange(a - from, f.len() as int);
        if (d - a) < run {
            assert(sub[d - a] == f[d - from]);
            assert(is_octal_digit(sub[d - a]));
            if d < to {
                assert(f[d - from] == b@[d as int]);
            }
        }
        if run < d - a {
            assert(sub[run] == f[a - from + run]);
            assert(!is_octal_digit(sub[run]));
            assert(is_octal_digit(f[a - from + run]));
        }
        assert(d - a == run);
    }
    if d == a {
        return None;
    }
    let mut t: usize = d;
    while t < to
        invariant
            d <= t <= to <= b@.len(),
            from <= a <= d,
            f == b@.subrange(from as int, to as int),
            forall|k: int| d - from <= k < t - from ==> f[k] == 32 || f[k] == 0,
        decreases to - t,
    {
        let c = b[t];
        if !(c == 32 || c == 0) {
            proof {
                assert(f[t - from] == b@[t as int]);
                assert(!(f[t - from] == 32 || f[t - from] == 0));
                assert(!field_padding_ok(f, d - from)) by {
                    assert(d - from <= t - from < f.len());
                }
            }
            return None;
        }
        proof {
            assert(f[t - from] == b@[t as int]);
        }
        t = t + 1;
    }
    proof {
        assert(field_padding_ok(f, d - from));
    }
    let mut n: u64 = 0;
    let mut k: usize = a;
    while k < d
        invariant
            from <= a <= k <= d <= to <= b@.len(),
            f == b@.subrange(from as int, to as int),
            n as nat == oct_val(f.subrange(a - from, k - from)),
            forall|m: int| a - from <= m < d - from ==> is_octal_digit(f[m]),
        decreases d - k,
    {
        let c = b[k];
        proof {
            assert(f[k - from] == b@[k as int]);
        }
        let dg = ((c - 48) as u64);
        let lim = u64::MAX / 8;
        let rem = u64::MAX % 8;
        if n > lim || (n == lim && dg > rem) {
            proof {
                assert(f[k - from] == b@[k as int]);
                lemma_oct_val_step(f, a - from, k - from);
                assert(oct_val(f.subrange(a - from, k - from + 1)) == n as nat * 8 + dg as nat);
                let whole = f.subrange(a - from, d - from);
                assert(whole.subrange(0, k - from + 1 - (a - from)) =~= f.subrange(
                    a - from,
                    k - from + 1,
                ));
                lemma_oct_val_mono(whole, k - from + 1 - (a - from));
                assert(oct_val(whole) > u64::MAX);
            }
            return None;
        }
        proof {
            lemma_oct_val_step(f, a - from, k - from);
        }
        n = n * 8 + dg;
        k = k + 1;
    }
    Some(n)
}

/// One parsed tar entry, as plain values: the stored path bytes, the mode
/// bits, and the contents.
#[derive(Debug)]
pub struct TarEntry {
    pub path: Vec<u8>,
    pub mode: u64,
    pub data: Vec<u8>,
}

/// The mathematical image of a parsed entry.
#[verifier::ext_equal]
pub ghost struct GhostEntry {
    pub path: Seq<u8>,
    pub mode: u64,
    pub data: Seq<u8>,
}

/// The 512-byte block at `off` is all zeros: end of the archive.
pub open spec fn zero_block(b: Seq<u8>, off: int) -> bool {
    forall|k: int| off <= k < off + 512 ==> b[k] == 0
}

/// The POSIX ustar magic is present, so the prefix field is meaningful.
pub open spec fn posix_magic(b: Seq<u8>, off: int) -> bool {
    &&& b[off + 257] == 117
    &&& b[off + 258] == 115
    &&& b[off + 259] == 116
    &&& b[off + 260] == 97
    &&& b[off + 261] == 114
    &&& b[off + 262] == 0
}

/// The NUL-terminated contents of the field `b[off..off+n]`.
pub open spec fn nul_field(b: Seq<u8>, off: int, n: int) -> Seq<u8> {
    let fld = b.subrange(off, off + n);
    fld.subrange(0, first_nul(fld))
}

/// The path stored for the entry at `off`: the prefix field joined to the
/// name field when the POSIX magic is present and the prefix is non-empty.
pub open spec fn entry_path(b: Seq<u8>, off: int) -> Seq<u8> {
    let name = nul_field(b, off, 100);
    let prefix = nul_field(b, off + 345, 155);
    if posix_magic(b, off) && prefix.len() > 0 {
        prefix + seq![47u8] + name
    } else {
        name
    }
}

/// The sum of the first `k` header bytes, the checksum field counting as
/// spaces.
pub open spec fn header_sum(b: Seq<u8>, off: int, k: int) -> int
    decreases k,
{
    if k <= 0 {
        0
    } else {
        header_sum(b, off, k - 1) + (if 148 <= k - 1 < 156 {
            32
        } else {
            b[off + k - 1] as int
        })
    }
}

/// The header checksum field parses and matches the computed sum.
pub open spec fn checksum_ok(b: Seq<u8>, off: int) -> bool {
    match octal_field(b.subrange(off + 148, off + 156)) {
        Some(c) => header_sum(b, off, 512) == c,
        None => false,
    }
}

/// The declared mode of the entry at `off`.
pub open spec fn entry_mode(b: Seq<u8>, off: int) -> Option<u64> {
    octal_field(b.subrange(off + 100, off + 108))
}

/// The declared size of the entry at `off`.
pub open spec fn entry_size(b: Seq<u8>, off: int) -> Option<u64> {
    octal_field(b.subrange(off + 124, off + 136))
}

/// The offset of the next header: the data region padded to whole blocks.
pub open spec fn next_offset(off: int, size: int) -> int {
    off + 512 + size + ((512 - size % 512) % 512)
}

/// Parses the entries of the tar stream from `off` on. The stream ends at a
/// zero block or at the exact end of the bytes; a truncated block, a bad
/// checksum, a malformed octal field or a truncated data region is
/// malformed.
pub open spec fn spec_entries(b: Seq<u8>, off: int) -> Option<Seq<GhostEntry>>
    decreases b.len() - off,
    when 0 <= off <= b.len()
{
    if off == b.len() {
        Some(Seq::empty())
    } else if off + 512 > b.len() {
        None
    } else if zero_block(b, off) {
        Some(Seq::empty())
    } else if !checksum_ok(b, off) {
        None
    } else {
        match (entry_mode(b, off), entry_size(b, off)) {
            (Some(mode), Some(size)) => {
                let next = next_offset(off, size as int);
                if next > b.len() {
                    None
                } else {
                    match spec_entries(b, next) {
                        Some(rest) => Some(
                            seq![
                                GhostEntry {
                                    path: entry_path(b, off),
                                    mode,
                                    data: b.subrange(off + 512, off + 512 + size),
                                },
                            ] + rest,
                        ),
                        None => None,
                    }
                }
            },
            _ => None,
        }
    }
}

/// The exec entries are the image of the ghost entries.
pub open spec fn entry_matches(e: TarEntry, g: GhostEntry) -> bool {
    e.path@ == g.path && e.mode == g.mode && e.data@ == g.data
}

pub open spec fn entries_match(v: Seq<TarEntry>, s: Seq<GhostEntry>) -> bool {
    v.len() == s.len() && forall|i: int| 0 <= i < v.len() ==> entry_matches(#[trigger] v[i], s[i])
}

/// Returns whether the 512-byte block at `off` is all zeros.
#[verifier::loop_isolation(false)]
fn is_zero_block(b: &Vec<u8>, off: usize) -> (r: bool)
    requires
        off + 512 <= b@.len(),
    ensures
        r == zero_block(b@, off as int),
{
    let bn = b.len();
    let mut k: usize = 0;
    while k < 512
        invariant
            k <= 512,
            forall|m: int| off <= m < off + k ==> b@[m] == 0,
        decreases 512 - k,
    {
        if b[off + k] != 0 {
            return false;
        }
        k = k + 1;
    }
    true
}

/// Computes the header checksum: every byte of the block, the checksum
/// field counting as spaces.
#[verifier::loop_isolation(false)]
fn header_checksum_sum(b: &Vec<u8>, off: usize) -> (sum: u64)
    requires
        off + 512 <= b@.len(),
    ensures
        sum as int == header_sum(b@, off as int, 512),
{
    let bn = b.len();
    let mut sum: u64 = 0;
    let mut k: usize = 0;
    while k < 512
        invariant
            k <= 512,
            sum as int == header_sum(b@, off as int, k as int),
            sum <= 255 * k,
        decreases 512 - k,
    {
        let c: u64 = if k >= 148 && k < 156 {
            32
        } else {
            b[off + k] as u64
        };
        sum = sum + c;
        k = k + 1;
    }
    sum
}

/// Reads the NUL-terminated contents of the field `b[off..off+n]`.
#[verifier::loop_isolation(false)]
fn read_nul_field(b: &Vec<u8>, off: usize, n: usize) -> (v: Vec<u8>)
    requires
        off + n <= b@.len(),
    ensures
        v@ == nul_field(b@, off as int, n as int),
{
    let bn = b.len();
    let ghost fld = b@.subrange(off as int, off as int + n as int);
    proof {
        lemma_first_nul(fld);
    }
    let mut k: usize = 0;
    while k < n && b[off + k] != 0
        invariant
            k <= n,
            forall|m: int| 0 <= m < k ==> fld[m] != 0,
        decreases n - k,
    {
        proof {
            assert(fld[k as int] == b@[off + k]);
        }
        k = k + 1;
    }
    proof {
        if (k as int) < first_nul(fld) {
            assert(fld[k as int] != 0);
            assert(fld[k as int] == b@[off + k]);
        }
        if first_nul(fld) < k as int {
            assert(fld[first_nul(fld)] == 0);
        }
        assert(k as int == first_nul(fld));
    }
    let v = copy_range(b, off, off + k);
    proof {
        assert(v@ =~= fld.subrange(0, first_nul(fld)));
    }
    v
}

/// Parses the tar entries from `off` on, appending them to `out`.
#[verifier::loop_isolation(false)]
fn parse_entries_from(b: &Vec<u8>, off: usize, out: &mut Vec<TarEntry>) -> (ok: bool)
    requires
        off <= b@.len(),
    ensures
        ok <==> spec_entries(b@, off as int) is Some,
        ok ==> ({
            let es = spec_entries(b@, off as int).unwrap();
            &&& final(out)@.len() == old(out)@.len() + es.len()
            &&& final(out)@.subrange(0, old(out)@.len() as int) == old(out)@
            &&& entries_match(
                final(out)@.subrange(old(out)@.len() as int, final(out)@.len() as int),
                es,
            )
        }),
    decreases b@.len() - off,
{
    let n = b.len();
    if off == n {
        proof {
            assert(final(out)@.subrange(0, old(out)@.len() as int) =~= old(out)@);
            assert(final(out)@.subrange(old(out)@.len() as int, final(out)@.len() as int)
                =~= Seq::<TarEntry>::empty());
        }
        return true;
    }
    if n - off < 512 {
        return false;
    }
    if is_zero_block(b, off) {
        proof {
            assert(final(out)@.subrange(0, old(out)@.len() as int) =~= old(out)@);
            assert(final(out)@.subrange(old(out)@.len() as int, final(out)@.len() as int)
                =~= Seq::<TarEntry>::empty());
        }
        return true;
    }
    let sum = header_checksum_sum(b, off);
    let csum = match parse_octal(b, off + 148, off + 156) {
        Some(c) => c,
        None => {
            return false;
        },
    };
    if csum != sum {
        return false;
    }
    let mode = match parse_octal(b, off + 100, off + 108) {
        Some(m) => m,
        None => {
            return false;
        },
    };
    let size = match parse_octal(b, off + 124, off + 136) {
        Some(s) => s,
        None => {
            return false;
        },
    };
    let avail: u64 = (n - off - 512) as u64;
    if size > avail {
        return false;
    }
    let size_us: usize = size as usize;
    let pad: usize = (512 - (size_us % 512)) % 512;
    if pad > n - (off + 512 + size_us) {
        return false;
    }
    let next: usize = off + 512 + size_us + pad;
    proof {
        assert(next as int == next_offset(off as int, size as int));
    }
    let name = read_nul_field(b, off, 100);
    let prefix = read_nul_field(b, off + 345, 155);
    let magic = b[off + 257] == 117 && b[off + 258] == 115 && b[off + 259] == 116 && b[off + 260]
        == 97 && b[off + 261] == 114 && b[off + 262] == 0;
    let path: Vec<u8> = if magic && prefix.len() > 0 {
        let mut p = prefix;
        p.push(47);
        let mut nm = name;
        p.append(&mut nm);
        proof {
            assert(p@ =~= entry_path(b@, off as int));
        }
        p
    } else {
        proof {
            assert(name@ == entry_path(b@, off as int));
        }
        name
    };
    let data = copy_range(b, off + 512, off + 512 + size_us);
    let ghost mid = out@;
    out.push(TarEntry { path, mode, data });
    let ghost g = GhostEntry {
        path: entry_path(b@, off as int),
        mode,
        data: b@.subrange(off as int + 512, off as int + 512 + size as int),
    };
    let ok = parse_entries_from(b, next, out);
    if !ok {
        return false;
    }
    proof {
        let es: Seq<GhostEntry> = spec_entries(b@, off as int).unwrap();
        let rest: Seq<GhostEntry> = spec_entries(b@, next as int).unwrap();
        assert(es =~= seq![g] + rest);
        assert(final(out)@.subrange(0, old(out)@.len() as int) =~= old(out)@);
        let added = final(out)@.subrange(old(out)@.len() as int, final(out)@.len() as int);
        let tail_added = final(out)@.subrange(
            mid.len() as int + 1,
            final(out)@.len() as int,
        );
        assert(entries_match(tail_added, rest));
        assert(added.len() == es.len());
        assert forall|i: int| 0 <= i < added.len() implies entry_matches(
            #[trigger] added[i],
            es[i],
        ) by {
            if i == 0 {
                assert(added[0] == final(out)@[old(out)@.len() as int]);
                assert(final(out)@[mid.len() as int] == mid.push(
                    TarEntry { path, mode, data },
                )[mid.len() as int]);
            } else {
                assert(added[i] == tail_added[i - 1]);
                assert(es[i] == rest[i - 1]);
            }
        }
    }
    true
}

/// Parses a complete tar stream into its entries.
pub fn parse_tar(b: &Vec<u8>) -> (r: Result<Vec<TarEntry>, ArchiveError>)
    ensures
        match r {
            Ok(es) => spec_entries(b@, 0) is Some && entries_match(
                es@,
                spec_entries(b@, 0).unwrap(),
            ),
            Err(ArchiveError::ExtractionError(_)) => spec_entries(b@, 0) is None,
            Err(_) => false,
        },
        r is Ok <==> spec_entries(b@, 0) is Some,
{
    let mut out: Vec<TarEntry> = Vec::new();
    let ok = parse_entries_from(b, 0, &mut out);
    if ok {
        proof {
            let es = spec_entries(b@, 0).unwrap();
            assert(out@.subrange(0, es.len() as int) =~= out@);
        }
        Ok(out)
    } else {
        Err(ArchiveError::ExtractionError(String::from_str("malformed tar archive")))
    }
}

/// The index of the first `/` byte, or the length if there is none.
pub open spec fn first_slash(s: Seq<u8>) -> int
    decreases s.len(),
{
    if s.len() == 0 {
        0
    } else if s[0] == 47 {
        0
    } else {
        1 + first_slash(s.subrange(1, s.len() as int))
    }
}

pub proof fn lemma_first_slash(s: Seq<u8>)
    ensures
        0 <= first_slash(s) <= s.len(),
        first_slash(s) < s.len() ==> s[first_slash(s)] == 47,
        forall|k: int| 0 <= k < first_slash(s) ==> s[k] != 47,
    decreases s.len(),
{
    if s.len() == 0 {
    } else if s[0] == 47 {
    } else {
        let rest = s.subrange(1, s.len() as int);
        lemma_first_slash(rest);
        assert forall|k: int| 0 <= k < first_slash(s) implies s[k] != 47 by {
            if k > 0 {
                assert(s[k] == rest[k - 1]);
            }
        }
    }
}

/// The non-empty components of a path, split on `/`. Empty components, and
/// so leading, trailing and doubled slashes, vanish.
pub open spec fn components(p: Seq<u8>) -> Seq<Seq<u8>>
    decreases p.len(),
{
    if p.len() == 0 {
        Seq::empty()
    } else {
        let i = first_slash(p);
        if 0 <= i < p.len() {
            let head = p.subrange(0, i);
            let rest = components(p.subrange(i + 1, p.len() as int));
            if head.len() > 0 {
                seq![head] + rest
            } else {
                rest
            }
        } else {
            seq![p]
        }
    }
}

/// The exec component list is the image of the spec one.
pub open spec fn comps_match(v: Seq<Vec<u8>>, s: Seq<Seq<u8>>) -> bool {
    v.len() == s.len() && forall|i: int| 0 <= i < v.len() ==> (#[trigger] v[i])@ == s[i]
}

/// Appends the components of `p[start..]` to `out`.
#[verifier::loop_isolation(false)]
fn push_components(p: &Vec<u8>, start: usize, out: &mut Vec<Vec<u8>>)
    requires
        start <= p@.len(),
    ensures
        final(out)@.len() == old(out)@.len() + components(
            p@.subrange(start as int, p@.len() as int),
        ).len(),
        final(out)@.subrange(0, old(out)@.len() as int) == old(out)@,
        comps_match(
            final(out)@.subrange(old(out)@.len() as int, final(out)@.len() as int),
            components(p@.subrange(start as int, p@.len() as int)),
        ),
    decreases p@.len() - start,
{
    let n = p.len();
    let ghost suffix = p@.subrange(start as int, p@.len() as int);
    if start == n {
        proof {
            assert(final(out)@.subrange(0, old(out)@.len() as int) =~= old(out)@);
            assert(final(out)@.subrange(old(out)@.len() as int, final(out)@.len() as int)
                =~= Seq::<Vec<u8>>::empty());
        }
        return ;
    }
    proof {
        lemma_first_slash(suffix);
    }
    let mut i: usize = start;
    while i < n && p[i] != 47
        invariant
            start <= i <= n,
            forall|m: int| 0 <= m < i - start ==> suffix[m] != 47,
        decreases n - i,
    {
        proof {
            assert(suffix[i - start] == p@[i as int]);
        }
        i = i + 1;
    }
    proof {
        if (i - start) < first_slash(suffix) {
            assert(suffix[i - start] != 47);
            assert(suffix[i - start] == p@[i as int]);
        }
        if first_slash(suffix) < i - start {
            assert(suffix[first_slash(suffix)] == 47);
        }
        assert(i - start == first_slash(suffix));
    }
    if i == n {
        let head = copy_range(p, start, n);
        proof {
            assert(head@ =~= suffix);
        }
        out.push(head);
        proof {
            assert(final(out)@.subrange(0, old(out)@.len() as int) =~= old(out)@);
            let added = final(out)@.subrange(old(out)@.len() as int, final(out)@.len() as int);
            assert(added =~= seq![final(out)@[old(out)@.len() as int]]);
            assert(components(suffix) =~= seq![suffix]);
        }
        return ;
    }
    let ghost mid0 = out@;
    if i > start {
        let head = copy_range(p, start, i);
        proof {
            assert(head@ =~= suffix.subrange(0, i - start));
        }
        out.push(head);
    }
    let ghost mid = out@;
    push_components(p, i + 1, out);
    proof {
        let rest_suffix = p@.subrange(i as int + 1, p@.len() as int);
        assert(rest_suffix =~= suffix.subrange(i - start + 1, suffix.len() as int));
        let rest = components(rest_suffix);
        assert(components(suffix) == if (i - start) > 0 {
            seq![suffix.subrange(0, i - start)] + rest
        } else {
            rest
        });
        assert(final(out)@.subrange(0, old(out)@.len() as int) =~= old(out)@);
        let added = final(out)@.subrange(old(out)@.len() as int, final(out)@.len() as int);
        let tail_added = final(out)@.subrange(mid.len() as int, final(out)@.len() as int);
        assert(comps_match(tail_added, rest));
        assert(added.len() == components(suffix).len());
        assert forall|m: int| 0 <= m < added.len() implies (#[trigger] added[m])@ == components(
            suffix,
        )[m] by {
            if i > start {
                if m == 0 {
                    assert(added[0] == final(out)@[old(out)@.len() as int]);
                    assert(final(out)@[mid0.len() as int] == mid[mid0.len() as int]);
                } else {
                    assert(added[m] == tail_added[m - 1]);
                    assert(components(suffix)[m] == rest[m - 1]);
                }
            } else {
                assert(added[m] == tail_added[m]);
            }
        }
    }
}

/// Splits a stored path into its non-empty components.
pub fn split_components(p: &Vec<u8>) -> (v: Vec<Vec<u8>>)
    ensures
        comps_match(v@, components(p@)),
{
    let mut v: Vec<Vec<u8>> = Vec::new();
    push_components(p, 0, &mut v);
    proof {
        assert(p@.subrange(0, p@.len() as int) =~= p@);
        assert(v@.subrange(0, v@.len() as int) =~= v@);
    }
    v
}

/// The parent-directory component.
pub open spec fn dotdot() -> Seq<u8> {
    seq![46u8, 46u8]
}

/// Entry `i` stores no path at all.
pub open spec fn no_path(es: Seq<GhostEntry>, i: int) -> bool {
    components(es[i].path).len() == 0
}

/// The shared synthetic root: the first component of the first entry.
pub open spec fn shared_root(es: Seq<GhostEntry>) -> Seq<u8> {
    components(es[0].path)[0]
}

/// Entry `i` does not start with the shared root.
pub open spec fn root_mismatch(es: Seq<GhostEntry>, i: int) -> bool {
    !no_path(es, i) && components(es[i].path)[0] != shared_root(es)
}

/// After stripping the root, a parent-directory component remains: the
/// entry would resolve outside the destination directory.
pub open spec fn escapes(es: Seq<GhostEntry>, i: int) -> bool {
    exists|j: int| 1 <= j < components(es[i].path).len() && components(es[i].path)[j] == dotdot()
}

pub open spec fn bad_entry(es: Seq<GhostEntry>, i: int) -> bool {
    no_path(es, i) || root_mismatch(es, i) || escapes(es, i)
}

/// Every entry has a path, starts with the shared root, and stays within
/// the destination.
pub open spec fn plan_ok(es: Seq<GhostEntry>) -> bool {
    forall|i: int| 0 <= i < es.len() ==> !bad_entry(es, i)
}

/// One planned filesystem action: a directory to create, or a file to
/// write with its contents and mode bits. The path is relative to the
/// destination, one component per element.
#[derive(Debug)]
pub struct PlanItem {
    pub path: Vec<Vec<u8>>,
    pub is_dir: bool,
    pub mode: u64,
    pub data: Vec<u8>,
}

/// The mathematical image of a planned action.
#[verifier::ext_equal]
pub ghost struct GhostPlanItem {
    pub path: Seq<Seq<u8>>,
    pub is_dir: bool,
    pub mode: u64,
    pub data: Seq<u8>,
}

/// The planned action for each entry: its path with the shared root
/// stripped; a directory when the entry's contents are empty, else a file
/// carrying the entry's contents and mode.
pub open spec fn spec_plan(es: Seq<GhostEntry>) -> Seq<GhostPlanItem> {
    Seq::new(
        es.len(),
        |i: int|
            GhostPlanItem {
                path: components(es[i].path).drop_first(),
                is_dir: es[i].data.len() == 0,
                mode: es[i].mode,
                data: es[i].data,
            },
    )
}

pub open spec fn plan_item_matches(p: PlanItem, g: GhostPlanItem) -> bool {
    &&& comps_match(p.path@, g.path)
    &&& p.is_dir == g.is_dir
    &&& p.mode == g.mode
    &&& p.data@ == g.data
}

pub open spec fn plan_matches(v: Seq<PlanItem>, s: Seq<GhostPlanItem>) -> bool {
    v.len() == s.len() && forall|i: int| 0 <= i < v.len() ==> plan_item_matches(
        #[trigger] v[i],
        s[i],
    )
}

/// The mathematical image of parsed entries.
pub open spec fn ghost_of(v: Seq<TarEntry>) -> Seq<GhostEntry> {
    Seq::new(
        v.len(),
        |i: int| GhostEntry { path: v[i].path@, mode: v[i].mode, data: v[i].data@ },
    )
}

/// Returns whether the bytes are exactly `..`.
fn is_dotdot(a: &Vec<u8>) -> (r: bool)
    ensures
        r == (a@ == dotdot()),
{
    if a.len() == 2 && a[0] == 46 && a[1] == 46 {
        proof {
            assert(a@ =~= dotdot());
        }
        true
    } else {
        proof {
            if a@ == dotdot() {
                assert(a@.len() == 2);
                assert(a@[0] == 46 && a@[1] == 46);
            }
        }
        false
    }
}

/// Returns whether two byte vectors hold the same bytes.
fn bytes_eq(a: &Vec<u8>, b: &Vec<u8>) -> (r: bool)
    ensures
        r == (a@ == b@),
{
    if a.len() != b.len() {
        return false;
    }
    let n = a.len();
    let mut k: usize = 0;
    while k < n
        invariant
            k <= n,
            n == a@.len() == b@.len(),
            forall|m: int| 0 <= m < k ==> a@[m] == b@[m],
        decreases n - k,
    {
        if a[k] != b[k] {
            return false;
        }
        k = k + 1;
    }
    proof {
        assert(a@ =~= b@);
    }
    true
}

/// Plans the extraction of parsed entries: strips the shared root from
/// every path, rejects an entry with no path, one outside the shared root,
/// and one that would resolve outside the destination.
#[verifier::loop_isolation(false)]
pub fn plan_entries(entries: &Vec<TarEntry>) -> (r: Result<Vec<PlanItem>, ArchiveError>)
    ensures
        match r {
            Ok(plan) => plan_ok(ghost_of(entries@)) && plan_matches(
                plan@,
                spec_plan(ghost_of(entries@)),
            ),
            Err(ArchiveError::Unexpected(_)) => exists|i: int|
                0 <= i < entries@.len() && no_path(ghost_of(entries@), i),
            Err(ArchiveError::ExtractionError(_)) => exists|i: int|
                0 <= i < entries@.len() && (root_mismatch(ghost_of(entries@), i) || escapes(
                    ghost_of(entries@),
                    i,
                )),
            Err(_) => false,
        },
        r is Ok <==> plan_ok(ghost_of(entries@)),
{
    let ghost ges = ghost_of(entries@);
    let n = entries.len();
    let mut plan: Vec<PlanItem> = Vec::new();
    if n == 0 {
        return Ok(plan);
    }
    let root_comps = split_components(&entries[0].path);
    if root_comps.len() == 0 {
        proof {
            assert(ges[0].path == entries@[0].path@);
            assert(no_path(ges, 0));
            assert(bad_entry(ges, 0));
            assert(!plan_ok(ges));
        }
        return Err(ArchiveError::Unexpected(String::from_str("entry has no path")));
    }
    let mut k: usize = 0;
    while k < n
        invariant
            n == entries@.len(),
            k <= n,
            ges == ghost_of(entries@),
            0 < root_comps@.len(),
            comps_match(root_comps@, components(ges[0].path)),
            plan@.len() == k,
            forall|m: int| 0 <= m < k ==> !bad_entry(ges, m),
            forall|m: int| 0 <= m < k ==> plan_item_matches(#[trigger] plan@[m], spec_plan(ges)[m]),
        decreases n - k,
    {
        let comps = split_components(&entries[k].path);
        if comps.len() == 0 {
            proof {
                assert(ges[k as int].path == entries@[k as int].path@);
                assert(no_path(ges, k as int));
                assert(bad_entry(ges, k as int));
                assert(!plan_ok(ges));
            }
            return Err(ArchiveError::Unexpected(String::from_str("entry has no path")));
        }
        if !bytes_eq(&comps[0], &root_comps[0]) {
            proof {
                assert(root_mismatch(ges, k as int));
                assert(bad_entry(ges, k as int));
            }
            return Err(
                ArchiveError::ExtractionError(
                    String::from_str("entry path does not start with the shared root"),
                ),
            );
        }
        let mut stripped: Vec<Vec<u8>> = Vec::new();
        let mut j: usize = 1;
        while j < comps.len()
            invariant
                1 <= j <= comps@.len(),
                comps_match(comps@, components(ges[k as int].path)),
                k < n == entries@.len(),
                ges == ghost_of(entries@),
                stripped@.len() == j - 1,
                forall|m: int| 1 <= m < j ==> comps@[m]@ != dotdot(),
                forall|m: int|
                    0 <= m < j - 1 ==> (#[trigger] stripped@[m])@ == components(
                        ges[k as int].path,
                    )[m + 1],
            decreases comps@.len() - j,
        {
            if is_dotdot(&comps[j]) {
                proof {
                    assert(components(ges[k as int].path)[j as int] == dotdot());
                    assert(escapes(ges, k as int));
                    assert(bad_entry(ges, k as int));
                }
                return Err(
                    ArchiveError::ExtractionError(
                        String::from_str("entry path resolves outside the destination"),
                    ),
                );
            }
            let c = copy_range(&comps[j], 0, comps[j].len());
            proof {
                assert(c@ =~= comps@[j as int]@);
            }
            stripped.push(c);
            j = j + 1;
        }
        proof {
            assert forall|m2: int|
                1 <= m2 < components(ges[k as int].path).len() implies components(
                ges[k as int].path,
            )[m2] != dotdot() by {
                assert(comps@[m2]@ == components(ges[k as int].path)[m2]);
            }
            assert(!escapes(ges, k as int));
            assert(!bad_entry(ges, k as int));
            assert(comps_match(
                stripped@,
                components(ges[k as int].path).drop_first(),
            )) by {
                assert(stripped@.len() == components(ges[k as int].path).drop_first().len());
                assert forall|m: int| 0 <= m < stripped@.len() implies (#[trigger] stripped@[m])@
                    == components(ges[k as int].path).drop_first()[m] by {
                    assert(stripped@[m]@ == components(ges[k as int].path)[m + 1]);
                }
            }
        }
        let data = copy_range(&entries[k].data, 0, entries[k].data.len());
        proof {
            assert(data@ =~= entries@[k as int].data@);
        }
        let is_dir = entries[k].data.len() == 0;
        let mode = entries[k].mode;
        plan.push(PlanItem { path: stripped, is_dir, mode, data });
        proof {
            assert(plan_item_matches(plan@[k as int], spec_plan(ges)[k as int]));
        }
        k = k + 1;
    }
    Ok(plan)
}

/// Rejecting escapes is a consequence of the plan's well-formedness: an
/// entry whose stripped path still holds a parent-directory component
/// makes the whole extraction plan fail.
pub proof fn lemma_extraction_rejects_escape(es: Seq<GhostEntry>, i: int, j: int)
    requires
        0 <= i < es.len(),
        1 <= j < components(es[i].path).len(),
        components(es[i].path)[j] == dotdot(),
    ensures
        !plan_ok(es),
{
    assert(escapes(es, i));
    assert(bad_entry(es, i));
}

/// What gzip decompression yields on given bytes: the decompressed bytes
/// when the input is a well-formed gzip stream, nothing otherwise.
pub uninterp spec fn gunzip_of(b: Seq<u8>) -> Option<Seq<u8>>;

/// Relies on flate2's `bufread::GzDecoder` read to the end over an
/// in-memory cursor: gzip decompression, and whether it succeeds, is a
/// function of the input bytes alone; a malformed stream is reported as an
/// error, never a panic.
#[verifier::external_body]
fn gunzip(bytes: &Vec<u8>) -> (r: Result<Vec<u8>, ArchiveError>)
    ensures
        r is Ok <==> gunzip_of(bytes@) is Some,
        r is Ok ==> r.unwrap()@ == gunzip_of(bytes@).unwrap(),
{
    let mut d = flate2::bufread::GzDecoder::new(std::io::Cursor::new(bytes.as_slice()));
    let mut out: Vec<u8> = Vec::new();
    match std::io::Read::read_to_end(&mut d, &mut out) {
        Ok(_) => Ok(out),
        Err(e) => Err(ArchiveError::ExtractionError(e.to_string())),
    }
}

/// Plans the extraction of a gzip-compressed tar archive: decompresses the
/// bytes, parses the entries, strips the shared root from every path and
/// validates that each one stays within the destination. It succeeds
/// exactly when the gzip stream decodes, the tar stream parses, and every
/// entry is safe. An unverified shell performs the returned actions under
/// the destination directory.
pub fn plan_archive_extraction(gz_bytes: &Vec<u8>) -> (r: Result<Vec<PlanItem>, ArchiveError>)
    ensures
        r is Ok <==> gunzip_of(gz_bytes@) is Some && spec_entries(
            gunzip_of(gz_bytes@).unwrap(),
            0,
        ) is Some && plan_ok(spec_entries(gunzip_of(gz_bytes@).unwrap(), 0).unwrap()),
        r is Ok ==> plan_matches(
            r.unwrap()@,
            spec_plan(spec_entries(gunzip_of(gz_bytes@).unwrap(), 0).unwrap()),
        ),
{
    let tar_bytes = match gunzip(gz_bytes) {
        Ok(b) => b,
        Err(e) => {
            return Err(e);
        },
    };
    let entries = match parse_tar(&tar_bytes) {
        Ok(es) => es,
        Err(e) => {
            return Err(e);
        },
    };
    proof {
        let es = spec_entries(gunzip_of(gz_bytes@).unwrap(), 0).unwrap();
        assert(entries_match(entries@, es));
        assert forall|i: int| 0 <= i < entries@.len() implies ghost_of(entries@)[i] =~= es[i] by {
            assert(entry_matches(entries@[i], es[i]));
        }
        assert(ghost_of(entries@) =~= es);
    }
    match plan_entries(&entries) {
        Ok(p) => Ok(p),
        Err(e) => Err(e),
    }
}

} // verus!
