//! The archive of configuration files: the name and contents of each file, and the
//! archive in memory.
use std::io::{Cursor, Write};

use vstd::prelude::*;
use vstd::utf8::encode_utf8;
use zip::result::ZipError;
use zip::write::SimpleFileOptions;
use zip::{CompressionMethod, ZipWriter};

use crate::context::WireguardConfig;
use crate::host::Host;
use crate::ping::HostStats;
use crate::text::{push_chars, push_str};
use crate::util::{trim_str, trimmed};

verus! {

/// A zip archive being written into a buffer in memory: the files started so far, with the
/// bytes written into each, and whether the last of them is still open for writing.
#[verifier::external_body]
pub struct ArchiveWriter {
    writer: ZipWriter<Cursor<Vec<u8>>>,
}

#[verifier::external_type_specification]
#[verifier::external_body]
pub struct ExZipError(ZipError);

#[verifier::external_type_specification]
#[verifier::external_body]
pub struct ExIoError(std::io::Error);

/// The decimal digit `d`.
pub open spec fn digit(d: nat) -> char {
    if d == 0 { '0' } else if d == 1 { '1' } else if d == 2 { '2' } else if d == 3 { '3' }
    else if d == 4 { '4' } else if d == 5 { '5' } else if d == 6 { '6' } else if d == 7 { '7' }
    else if d == 8 { '8' } else { '9' }
}

/// The decimal notation of `n`, without leading zeros.
pub open spec fn decimal(n: nat) -> Seq<char>
    decreases n,
{
    if n < 10 {
        seq![digit(n)]
    } else {
        decimal(n / 10).push(digit(n % 10))
    }
}

/// `s` with zeros in front, up to `width` characters.
pub open spec fn zero_padded(s: Seq<char>, width: nat) -> Seq<char> {
    if s.len() < width {
        Seq::new((width - s.len()) as nat, |i: int| '0') + s
    } else {
        s
    }
}

/// The name of the configuration file of a location with an average round-trip time of
/// `rtt_ms` milliseconds and `num_ips` IPs that answered.
pub open spec fn file_name(rtt_ms: nat, location: Seq<char>, num_ips: nat) -> Seq<char> {
    "cs-"@ + zero_padded(decimal(rtt_ms), 4) + "ms-"@ + trimmed(location, 8) + "-"@
        + zero_padded(decimal(num_ips), 2) + "ips.conf"@
}

/// Whether `c` is a decimal digit.
pub open spec fn is_digit(c: char) -> bool {
    '0' <= c <= '9'
}

/// The number that the decimal digits `s` stand for.
pub open spec fn digits_value(s: Seq<char>) -> int
    decreases s.len(),
{
    if s.len() == 0 {
        0
    } else {
        digits_value(s.drop_last()) * 10 + (s.last() as int - '0' as int)
    }
}

/// Whether `s` writes `n` in decimal with at least `width` digits, and with no zero in front
/// beyond those needed to reach that width.
pub open spec fn writes_number(s: Seq<char>, n: nat, width: nat) -> bool {
    &&& s.len() >= width
    &&& forall|j: int| 0 <= j < s.len() ==> is_digit(#[trigger] s[j])
    &&& digits_value(s) == n
    &&& (s.len() == width || s[0] != '0')
}

proof fn lemma_digit_value(d: nat)
    requires
        d < 10,
    ensures
        digit(d) as int - '0' as int == d,
{
    assert('0' as int == 48 && '1' as int == 49 && '2' as int == 50 && '3' as int == 51 && '4' as int == 52);
    assert('5' as int == 53 && '6' as int == 54 && '7' as int == 55 && '8' as int == 56 && '9' as int == 57);
}

proof fn lemma_decimal_digits(n: nat)
    ensures
        decimal(n).len() >= 1,
        forall|j: int| 0 <= j < decimal(n).len() ==> is_digit(#[trigger] decimal(n)[j]),
        digits_value(decimal(n)) == n,
        n >= 1 ==> decimal(n)[0] != '0',
    decreases n,
{
    lemma_digit_value(n % 10);
    if n >= 10 {
        lemma_decimal_digits(n / 10);
        assert(n == (n / 10) * 10 + n % 10);
        let d = decimal(n);
        assert(d.drop_last() =~= decimal(n / 10));
        assert forall|j: int| 0 <= j < d.len() implies is_digit(#[trigger] d[j]) by {
            if j < d.len() - 1 {
                assert(d[j] == decimal(n / 10)[j]);
            }
        }
        assert(d[0] == decimal(n / 10)[0]);
        assert(d.last() == digit(n % 10));
        assert(digits_value(d) == digits_value(decimal(n / 10)) * 10 + (digit(n % 10) as int - '0' as int));
        assert(digits_value(d) == n);
    } else {
        let d = decimal(n);
        assert(d.drop_last() =~= Seq::<char>::empty());
        assert(d.last() == digit(n));
        assert(digits_value(d.drop_last()) == 0);
        assert(digits_value(d) == n);
    }
}

proof fn lemma_zeros_value(k: nat, s: Seq<char>)
    ensures
        digits_value(Seq::new(k, |i: int| '0') + s) == digits_value(s),
    decreases s.len(), k,
{
    let z = Seq::new(k, |i: int| '0');
    if s.len() == 0 {
        assert(z + s =~= z);
        if k > 0 {
            lemma_zeros_value((k - 1) as nat, s);
            assert(z.drop_last() =~= Seq::new((k - 1) as nat, |i: int| '0'));
            assert(Seq::new((k - 1) as nat, |i: int| '0') + s =~= Seq::new((k - 1) as nat, |i: int| '0'));
        }
    } else {
        lemma_zeros_value(k, s.drop_last());
        assert((z + s).drop_last() =~= z + s.drop_last());
    }
}

proof fn lemma_zero_padded_writes(n: nat, width: nat)
    requires
        width >= 1,
    ensures
        writes_number(zero_padded(decimal(n), width), n, width),
{
    lemma_decimal_digits(n);
    let d = decimal(n);
    if d.len() < width {
        let k = (width - d.len()) as nat;
        let z = Seq::new(k, |i: int| '0');
        let t = z + d;
        lemma_zeros_value(k, d);
        assert forall|j: int| 0 <= j < t.len() implies is_digit(#[trigger] t[j]) by {
            if j >= k {
                assert(t[j] == d[j - k]);
            }
        }
    } else if n == 0 {
        assert(d =~= seq!['0']);
    }
}

/// The name of a configuration file is `cs-`, the round-trip time in milliseconds written with
/// at least four digits, `ms-`, the location cut to eight characters, `-`, the number of IPs
/// written with at least two digits, and `ips.conf`; the numbers read back as the time and the
/// number of IPs, with no more zeros in front than those widths ask for.
pub proof fn lemma_file_name_fields(rtt_ms: nat, location: Seq<char>, num_ips: nat)
    ensures
        exists|a: Seq<char>, b: Seq<char>| {
            &&& writes_number(a, rtt_ms, 4)
            &&& writes_number(b, num_ips, 2)
            &&& #[trigger] file_name(rtt_ms, location, num_ips) == "cs-"@ + a + "ms-"@
                + (if location.len() > 8 { location.take(8) } else { location }) + "-"@ + b + "ips.conf"@
        },
{
    let a = zero_padded(decimal(rtt_ms), 4);
    let b = zero_padded(decimal(num_ips), 2);
    lemma_zero_padded_writes(rtt_ms, 4);
    lemma_zero_padded_writes(num_ips, 2);
    assert(file_name(rtt_ms, location, num_ips) == "cs-"@ + a + "ms-"@
        + (if location.len() > 8 { location.take(8) } else { location }) + "-"@ + b + "ips.conf"@);
}

fn digit_char(d: u64) -> (c: char)
    requires
        d < 10,
    ensures
        c == digit(d as nat),
{
    if d == 0 { '0' } else if d == 1 { '1' } else if d == 2 { '2' } else if d == 3 { '3' }
    else if d == 4 { '4' } else if d == 5 { '5' } else if d == 6 { '6' } else if d == 7 { '7' }
    else if d == 8 { '8' } else { '9' }
}

/// Appends the decimal digits of `n` to `out`.
fn push_decimal(out: &mut Vec<char>, n: u64)
    ensures
        final(out)@ == old(out)@ + decimal(n as nat),
    decreases n,
{
    if n >= 10 {
        push_decimal(out, n / 10);
    }
    out.push(digit_char(n % 10));
    assert(final(out)@ =~= old(out)@ + decimal(n as nat));
}

/// Appends the decimal digits of `n` to `out`, with zeros in front up to `width` characters.
fn push_zero_padded(out: &mut String, n: u64, width: usize)
    ensures
        final(out)@ == old(out)@ + zero_padded(decimal(n as nat), width as nat),
{
    let mut digits: Vec<char> = Vec::new();
    push_decimal(&mut digits, n);
    assert(digits@ =~= decimal(n as nat));
    let mut k: usize = digits.len();
    while k < width
        invariant
            digits@.len() <= k <= width || k == digits@.len(),
            digits@ == decimal(n as nat),
            out@ == old(out)@ + Seq::new((k - digits@.len()) as nat, |i: int| '0'),
        decreases width - k,
    {
        out.push('0');
        assert(out@ =~= old(out)@ + Seq::new((k + 1 - digits@.len()) as nat, |i: int| '0'));
        k = k + 1;
    }
    push_chars(out, &digits, 0, digits.len());
    proof {
        assert(digits@.subrange(0, digits@.len() as int) =~= digits@);
        if digits@.len() < width {
            assert(out@ =~= old(out)@ + zero_padded(decimal(n as nat), width as nat));
        } else {
            assert(Seq::new((k - digits@.len()) as nat, |i: int| '0') =~= Seq::<char>::empty());
            assert(out@ =~= old(out)@ + zero_padded(decimal(n as nat), width as nat));
        }
    }
}

/// The name of the configuration file of a location with an average round-trip time of
/// `rtt_ms` milliseconds and `num_ips` IPs that answered: the time with at least four
/// digits, the location cut to eight characters, the number of IPs with at least two digits.
pub fn config_file_name(rtt_ms: u64, location: &str, num_ips: usize) -> (r: String)
    ensures
        r@ == file_name(rtt_ms as nat, location@, num_ips as nat),
{
    let mut r = String::new();
    push_str(&mut r, "cs-");
    push_zero_padded(&mut r, rtt_ms, 4);
    push_str(&mut r, "ms-");
    push_str(&mut r, trim_str(location, 8));
    push_str(&mut r, "-");
    push_zero_padded(&mut r, num_ips as u64, 2);
    push_str(&mut r, "ips.conf");
    assert(r@ =~= file_name(rtt_ms as nat, location@, num_ips as nat));
    r
}

/// The WireGuard endpoint of a location.
pub open spec fn endpoint(location: Seq<char>) -> Seq<char> {
    location + ".cstorm.is:443"@
}

/// The name and the contents of the configuration file for the results `stats` of a host,
/// whose pings took `rtt_ms` milliseconds on average.
pub fn config_entry(wireguard: &WireguardConfig, stats: &HostStats, rtt_ms: u64) -> (r: (String, String))
    ensures
        r.0@ == file_name(rtt_ms as nat, stats.host.location@, stats.durations@.len()),
        r.1@ == wireguard.config_file(endpoint(stats.host.location@), stats.host.public_key@),
{
    let host: &Host = &stats.host;
    let name = config_file_name(rtt_ms, host.location.as_str(), stats.durations.len());
    let contents = wireguard.make_config(host.to_endpoint().as_str(), host.public_key.as_str());
    (name, contents)
}

/// The files that an archive being written holds, in the order they were started: the
/// name of each and the bytes written into it so far.
pub uninterp spec fn archive_files(archive: ArchiveWriter) -> Seq<(Seq<char>, Seq<u8>)>;

/// Whether the file started last in the archive is still open for writing.
pub uninterp spec fn archive_writing(archive: ArchiveWriter) -> bool;

/// Whether no write into the archive has failed: a failed write leaves bytes in the buffer
/// that belong to no file of the archive.
pub uninterp spec fn archive_sound(archive: ArchiveWriter) -> bool;

/// The bytes of a finished zip archive that stores the files `files` (name, contents) in
/// order, uncompressed, with the options that `start_stored_file` gives them.
pub uninterp spec fn zip_archive(files: Seq<(Seq<char>, Seq<u8>)>) -> Seq<u8>;

/// The largest file, in bytes, that an archive stores without the large-file option.
pub const MAX_STORED_FILE_BYTES: u64 = 4294967295;

/// The largest name, in bytes, that the header of a file in an archive can hold.
pub const MAX_FILE_NAME_BYTES: u64 = 65535;

/// Whether a file named `name` is among `files`.
pub open spec fn has_file(files: Seq<(Seq<char>, Seq<u8>)>, name: Seq<char>) -> bool {
    exists|k: int| 0 <= k < files.len() && (#[trigger] files[k]).0 == name
}

/// Whether every file of `files` fits in an archive without the large-file option.
pub open spec fn files_fit(files: Seq<(Seq<char>, Seq<u8>)>) -> bool {
    forall|k: int| 0 <= k < files.len() ==> (#[trigger] files[k]).1.len() <= MAX_STORED_FILE_BYTES
}

/// Calls `ZipWriter::new` on an empty in-memory buffer. Claimed: the new archive holds no
/// file, and none is open.
#[verifier::external_body]
fn new_archive() -> (r: ArchiveWriter)
    ensures
        archive_files(r) == Seq::<(Seq<char>, Seq<u8>)>::empty(),
        !archive_writing(r),
        archive_sound(r),
{
    ArchiveWriter { writer: ZipWriter::new(Cursor::new(Vec::new())) }
}

/// Calls `ZipWriter::start_file` with the name `name` and options that store the file
/// uncompressed. A name longer than `MAX_FILE_NAME_BYTES` bytes makes the call panic, so it is
/// left out. Claimed: the name is refused exactly when the archive already holds a file of
/// that name (closing the open file and writing the header go to memory and do not fail); on
/// success the archive holds one more file, named `name`, empty and open. What the archive
/// holds after a refusal is not stated, nor what happens when the buffer outgrows memory.
#[verifier::external_body]
fn start_stored_file(archive: &mut ArchiveWriter, name: &str) -> (r: Result<(), ZipError>)
    requires
        encode_utf8(name@).len() <= MAX_FILE_NAME_BYTES,
    ensures
        r is Err <==> has_file(archive_files(*old(archive)), name@),
        r is Ok ==> archive_files(*final(archive)) == archive_files(*old(archive)).push((name@, Seq::<u8>::empty())),
        r is Ok ==> archive_writing(*final(archive)),
        r is Ok && archive_sound(*old(archive)) ==> archive_sound(*final(archive)),
{
    archive.writer.start_file(name, SimpleFileOptions::default().compression_method(CompressionMethod::Stored))
}

/// Calls `Write::write_all` on the writer. Claimed: on success, `bytes` were appended to the
/// file that was started last. While that file is open, the write succeeds exactly when the
/// file stays within `MAX_STORED_FILE_BYTES` bytes, and the file stays open. What the archive
/// holds after a failure is not stated.
#[verifier::external_body]
fn write_bytes(archive: &mut ArchiveWriter, bytes: &[u8]) -> (r: Result<(), std::io::Error>)
    ensures
        r is Ok && archive_files(*old(archive)).len() > 0 ==> archive_files(*final(archive)) == ({
            let files = archive_files(*old(archive));
            let last = files.last();
            files.update(files.len() - 1, (last.0, last.1 + bytes@))
        }),
        archive_writing(*old(archive)) && archive_files(*old(archive)).len() > 0 ==> (r is Ok <==>
            archive_files(*old(archive)).last().1.len() + bytes@.len() <= MAX_STORED_FILE_BYTES),
        archive_writing(*old(archive)) && r is Ok ==> archive_writing(*final(archive)),
        r is Ok && archive_sound(*old(archive)) ==> archive_sound(*final(archive)),
{
    archive.writer.write_all(bytes)
}

/// Calls `ZipWriter::finish` and hands back the bytes of the buffer, on a writer on which no
/// write has failed. Claimed: when every file fits without the large-file option, finishing
/// succeeds (the directory and the footer go to memory); on success the bytes are the archive
/// of the files that the writer holds, a function of those files alone: each file was started
/// with the same options, and without the `time` feature of `zip` every entry carries the
/// fixed default date.
#[verifier::external_body]
fn finish_archive(archive: ArchiveWriter) -> (r: Result<Vec<u8>, ZipError>)
    requires
        archive_sound(archive),
    ensures
        files_fit(archive_files(archive)) ==> r is Ok,
        r is Ok ==> r->Ok_0@ == zip_archive(archive_files(archive)),
{
    archive.writer.finish().map(|c| c.into_inner())
}

/// What went wrong while the archive was assembled in memory.
#[derive(Debug)]
pub enum ArchiveError {
    /// The file number `index` could not be started.
    StartFile { index: usize, zip_error: ZipError },
    /// The contents of file number `index` could not be written.
    WriteFile { index: usize, io_error: std::io::Error },
    /// The archive could not be finished.
    Finish { zip_error: ZipError },
}

/// The name and the bytes of the file for the entry `e` (name, contents).
pub open spec fn file_of(e: (String, String)) -> (Seq<char>, Seq<u8>) {
    (e.0@, encode_utf8(e.1@))
}

/// Whether two of the entries have the same name.
pub open spec fn has_duplicate_name(entries: Seq<(String, String)>) -> bool {
    exists|i: int, j: int| 0 <= i < j < entries.len() && (#[trigger] entries[i]).0@ == (#[trigger] entries[j]).0@
}

/// Whether the contents of every entry fit in an archive without the large-file option.
pub open spec fn entries_fit(entries: Seq<(String, String)>) -> bool {
    forall|k: int| 0 <= k < entries.len() ==> encode_utf8((#[trigger] entries[k]).1@).len() <= MAX_STORED_FILE_BYTES
}

/// Whether entry number `j` can be stored after the entries before it: its contents fit
/// without the large-file option, and no earlier entry has its name.
pub open spec fn entry_storable(entries: Seq<(String, String)>, j: int) -> bool {
    &&& encode_utf8(entries[j].1@).len() <= MAX_STORED_FILE_BYTES
    &&& forall|i: int| 0 <= i < j ==> (#[trigger] entries[i]).0@ != entries[j].0@
}

/// Whether the name of every entry fits in the header of a file.
pub open spec fn names_fit(entries: Seq<(String, String)>) -> bool {
    forall|k: int| 0 <= k < entries.len() ==> encode_utf8((#[trigger] entries[k]).0@).len() <= MAX_FILE_NAME_BYTES
}

/// A zip archive, assembled in memory, that stores the files `entries` (name, contents) in
/// order, uncompressed. It is made exactly when no two files have the same name and every
/// file fits without the large-file option; otherwise the first entry that breaks this is
/// reported.
pub fn write_archive(entries: &Vec<(String, String)>) -> (r: Result<Vec<u8>, ArchiveError>)
    requires
        names_fit(entries@),
    ensures
        r is Ok <==> !has_duplicate_name(entries@) && entries_fit(entries@),
        r is Ok ==> r->Ok_0@ == zip_archive(entries@.map_values(|e: (String, String)| file_of(e))),
        r matches Err(ArchiveError::StartFile { index, .. }) ==> {
            &&& index < entries@.len()
            &&& forall|j: int| 0 <= j < index ==> #[trigger] entry_storable(entries@, j)
            &&& exists|i: int| 0 <= i < index && (#[trigger] entries@[i]).0@ == entries@[index as int].0@
        },
        r matches Err(ArchiveError::WriteFile { index, .. }) ==> {
            &&& index < entries@.len()
            &&& forall|j: int| 0 <= j < index ==> #[trigger] entry_storable(entries@, j)
            &&& forall|i: int| 0 <= i < index ==> (#[trigger] entries@[i]).0@ != entries@[index as int].0@
            &&& encode_utf8(entries@[index as int].1@).len() > MAX_STORED_FILE_BYTES
        },
        !(r matches Err(ArchiveError::Finish { .. })),
{
    let ghost files = entries@.map_values(|e: (String, String)| file_of(e));
    let mut writer = new_archive();
    let mut k: usize = 0;
    while k < entries.len()
        invariant
            k <= entries@.len(),
            names_fit(entries@),
            files == entries@.map_values(|e: (String, String)| file_of(e)),
            archive_files(writer) == files.take(k as int),
            k > 0 ==> archive_writing(writer),
            archive_sound(writer),
            forall|i: int, j: int| 0 <= i < j < k ==> (#[trigger] entries@[i]).0@ != (#[trigger] entries@[j]).0@,
            forall|i: int| 0 <= i < k ==> encode_utf8((#[trigger] entries@[i]).1@).len() <= MAX_STORED_FILE_BYTES,
        decreases entries@.len() - k,
    {
        proof {
            assert(encode_utf8(entries@[k as int].0@).len() <= MAX_FILE_NAME_BYTES);
            if has_file(archive_files(writer), entries@[k as int].0@) {
                let i = choose|i: int| 0 <= i < archive_files(writer).len() && (#[trigger] archive_files(writer)[i]).0 == entries@[k as int].0@;
                assert(files[i] == file_of(entries@[i]));
            }
        }
        match start_stored_file(&mut writer, entries[k].0.as_str()) {
            Ok(()) => {},
            Err(zip_error) => {
                proof {
                    let prev = files.take(k as int);
                    assert(has_file(prev, entries@[k as int].0@));
                    let i = choose|i: int| 0 <= i < prev.len() && (#[trigger] prev[i]).0 == entries@[k as int].0@;
                    assert(files[i] == file_of(entries@[i]));
                    assert(has_duplicate_name(entries@)) by {
                        assert(entries@[i].0@ == entries@[k as int].0@);
                    }
                }
                return Err(ArchiveError::StartFile { index: k, zip_error });
            },
        }
        proof {
            assert forall|i: int, j: int| 0 <= i < j < k + 1 implies (#[trigger] entries@[i]).0@ != (#[trigger] entries@[j]).0@ by {
                if j == k {
                    // the name was not refused, so no earlier file has it
                    assert(files.take(k as int)[i].0 == entries@[i].0@);
                }
            }
        }
        let bytes = entries[k].1.as_str().as_bytes();
        match write_bytes(&mut writer, bytes) {
            Ok(()) => {},
            Err(io_error) => {
                proof {
                    assert(!entries_fit(entries@)) by {
                        assert(encode_utf8(entries@[k as int].1@).len() > MAX_STORED_FILE_BYTES);
                    }
                }
                return Err(ArchiveError::WriteFile { index: k, io_error });
            },
        }
        assert(archive_files(writer) =~= files.take(k + 1));
        k = k + 1;
    }
    assert(files.take(k as int) =~= files);
    proof {
        assert forall|i: int| 0 <= i < files.len() implies (#[trigger] files[i]).1.len() <= MAX_STORED_FILE_BYTES by {
            assert(files[i] == file_of(entries@[i]));
        }
        assert(!has_duplicate_name(entries@));
    }
    match finish_archive(writer) {
        Ok(bytes) => Ok(bytes),
        Err(zip_error) => Err(ArchiveError::Finish { zip_error }),
    }
}

} // verus!
