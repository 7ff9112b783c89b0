//! The contents of the document root that the integration tests run on.

use vstd::prelude::*;
use vstd::slice::slice_to_vec;
use vstd::utf8::encode_utf8;

verus! {

/// The size of the big file.
pub const BIG_FILE_BYTES: usize = 104_857_600;

/// The size of the blocks that the big file repeats.
pub const BIG_BLOCK_BYTES: usize = 65536;

/// The bytes that `flate2` compresses to with gzip at the default level.
pub uninterp spec fn gzipped(data: Seq<u8>) -> Seq<u8>;

/// `flate2::write::GzEncoder` at the default compression, fed all of `data`
/// and finished. What it produces is a function of the data, named by
/// [`gzipped`].
#[verifier::external_body]
fn gzip(data: &[u8]) -> (res: Vec<u8>)
    ensures
        res@ == gzipped(data@),
{
    let level = flate2::Compression::default();
    let mut encoder = flate2::write::GzEncoder::new(Vec::new(), level);
    std::io::Write::write_all(&mut encoder, data).unwrap();
    encoder.finish().unwrap()
}

/// The SHA-256 digest of bytes, in lower-case hexadecimal.
pub uninterp spec fn sha256_text(data: Seq<u8>) -> Seq<char>;

/// `sha2::Sha256::digest`, in lower-case hexadecimal. It is a function of the
/// data, named by [`sha256_text`], and has 64 digits.
#[verifier::external_body]
fn sha256(data: &[u8]) -> (res: String)
    ensures
        res@ == sha256_text(data@),
        res@.len() == 64,
{
    format!("{:x}", <sha2::Sha256 as sha2::Digest>::digest(data))
}

/// The bytes of a text.
fn bytes_of(text: &str) -> (res: Vec<u8>)
    ensures
        res@ == encode_utf8(text@),
{
    slice_to_vec(text.as_bytes())
}

/// `count` bytes that count up from 0 and start again at `modulus`.
pub open spec fn counting_bytes(count: nat, modulus: nat) -> Seq<u8> {
    Seq::new(count, |i: int| (i % modulus as int) as u8)
}

/// Bytes that count up from 0 and start again at `modulus`.
pub fn count_bytes(count: usize, modulus: usize) -> (res: Vec<u8>)
    requires
        0 < modulus <= 256,
    ensures
        res@ == counting_bytes(count as nat, modulus as nat),
{
    let mut out: Vec<u8> = Vec::new();
    let mut i: usize = 0;
    while i < count
        invariant
            0 <= i <= count,
            0 < modulus <= 256,
            out@ == counting_bytes(i as nat, modulus as nat),
        decreases count - i,
    {
        out.push((i % modulus) as u8);
        i += 1;
        assert(out@ =~= counting_bytes(i as nat, modulus as nat));
    }
    out
}

/// `unit`, `count` times over.
pub open spec fn repeated(unit: Seq<u8>, count: nat) -> Seq<u8>
    decreases count,
{
    if count == 0 {
        seq![]
    } else {
        repeated(unit, (count - 1) as nat) + unit
    }
}

fn repeat(unit: &[u8], count: usize) -> (res: Vec<u8>)
    ensures
        res@ == repeated(unit@, count as nat),
{
    let mut out: Vec<u8> = Vec::new();
    let mut i: usize = 0;
    while i < count
        invariant
            0 <= i <= count,
            out@ == repeated(unit@, i as nat),
        decreases count - i,
    {
        let ghost before = out@;
        out.extend_from_slice(unit);
        assert(out@ =~= before + unit@);
        i += 1;
    }
    out
}

/// The contents of the script in the document root.
pub open spec fn script_bytes() -> Seq<u8> {
    repeated(encode_utf8("console.log('envoy files');\n"@), 10)
}

/// The files of the document root but the big one, by path. The directories
/// are those that the paths name.
pub open spec fn fixture_contents() -> Seq<(Seq<char>, Seq<u8>)> {
    seq![
        ("index.html"@, encode_utf8("<html>home</html>"@)),
        ("hello.txt"@, encode_utf8("hello world\n"@)),
        // Values 0..256 repeated, for range tests.
        ("data.bin"@, counting_bytes(10240, 256)),
        (".secret"@, encode_utf8("dotfile"@)),
        ("sub/index.html"@, encode_utf8("<html>sub</html>"@)),
        ("sub/nested.txt"@, encode_utf8("nested"@)),
        ("listing-dir/a.txt"@, encode_utf8("a"@)),
        ("listing-dir/<evil>.txt"@, encode_utf8("x"@)),
        ("app.js"@, script_bytes()),
        ("app.js.gz"@, gzipped(script_bytes())),
        // Not real brotli; only negotiation + byte passthrough are asserted.
        ("app.js.br"@, encode_utf8("BROTLI-BYTES"@)),
    ]
}

/// A list of files as paths with contents.
pub open spec fn file_views(files: Seq<(String, Vec<u8>)>) -> Seq<(Seq<char>, Seq<u8>)> {
    files.map_values(|f: (String, Vec<u8>)| (f.0@, f.1@))
}

fn push_file(files: &mut Vec<(String, Vec<u8>)>, path: &str, bytes: Vec<u8>)
    ensures
        file_views(final(files)@) == file_views(old(files)@).push((path@, bytes@)),
{
    let ghost before = file_views(files@);
    files.push((path.to_owned(), bytes));
    assert(file_views(files@) =~= before.push((path@, bytes@)));
}

/// The files of the document root but the big one, by path.
pub fn fixture_files() -> (res: Vec<(String, Vec<u8>)>)
    ensures
        file_views(res@) == fixture_contents(),
{
    let mut files: Vec<(String, Vec<u8>)> = Vec::new();
    assert(file_views(files@) =~= seq![]);
    push_file(&mut files, "index.html", bytes_of("<html>home</html>"));
    push_file(&mut files, "hello.txt", bytes_of("hello world\n"));
    push_file(&mut files, "data.bin", count_bytes(10240, 256));
    push_file(&mut files, ".secret", bytes_of("dotfile"));
    push_file(&mut files, "sub/index.html", bytes_of("<html>sub</html>"));
    push_file(&mut files, "sub/nested.txt", bytes_of("nested"));
    push_file(&mut files, "listing-dir/a.txt", bytes_of("a"));
    push_file(&mut files, "listing-dir/<evil>.txt", bytes_of("x"));
    let script = repeat(bytes_of("console.log('envoy files');\n").as_slice(), 10);
    let compressed = gzip(script.as_slice());
    push_file(&mut files, "app.js", script);
    push_file(&mut files, "app.js.gz", compressed);
    push_file(&mut files, "app.js.br", bytes_of("BROTLI-BYTES"));
    assert(file_views(files@) =~= fixture_contents());
    files
}

/// The contents of the big file: a deterministic fast fill (not random), so it
/// is cheap and its digest is reproducible. Each block counts up from 0 anew.
pub open spec fn big_file_bytes(count: nat) -> Seq<u8> {
    Seq::new(count, |i: int| ((i % BIG_BLOCK_BYTES as int) % 251) as u8)
}

/// The contents of the big file, or of a smaller one of the same kind.
pub fn big_file(count: usize) -> (res: Vec<u8>)
    ensures
        res@ == big_file_bytes(count as nat),
{
    let mut out: Vec<u8> = Vec::new();
    let mut i: usize = 0;
    while i < count
        invariant
            0 <= i <= count,
            out@ == big_file_bytes(i as nat),
        decreases count - i,
    {
        out.push(((i % BIG_BLOCK_BYTES) % 251) as u8);
        i += 1;
        assert(out@ =~= big_file_bytes(i as nat));
    }
    out
}

/// The digest of file contents, by which a download is compared with them.
pub fn content_digest(contents: &[u8]) -> (res: String)
    ensures
        res@ == sha256_text(contents@),
        res@.len() == 64,
{
    sha256(contents)
}

/// Repeating is adding up: once is the unit itself, and more is one after the
/// other.
pub proof fn law_repeating_adds_up(unit: Seq<u8>, a: nat, b: nat)
    ensures
        repeated(unit, 0).len() == 0,
        repeated(unit, 1) == unit,
        repeated(unit, a + b) == repeated(unit, a) + repeated(unit, b),
    decreases b,
{
    assert(repeated(unit, 0) =~= seq![]);
    assert(repeated(unit, 1) =~= unit);
    if b > 0 {
        law_repeating_adds_up(unit, a, (b - 1) as nat);
        assert(repeated(unit, a) + (repeated(unit, (b - 1) as nat) + unit) =~= repeated(unit, a)
            + repeated(unit, (b - 1) as nat) + unit);
    } else {
        assert(repeated(unit, a) + repeated(unit, 0) =~= repeated(unit, a));
    }
}

/// The bytes count up one by one and start again at the modulus; those of the
/// big file start again with each block, too.
pub proof fn law_bytes_count_up(count: nat, modulus: nat, i: int)
    requires
        0 < modulus <= 256,
        0 <= i < count,
    ensures
        counting_bytes(count, modulus).len() == count,
        i == 0 ==> counting_bytes(count, modulus)[i] == 0,
        i > 0 ==> counting_bytes(count, modulus)[i] == if counting_bytes(count, modulus)[i - 1] + 1
            == modulus {
            0
        } else {
            counting_bytes(count, modulus)[i - 1] + 1
        },
        big_file_bytes(count).len() == count,
        i % 65536 == 0 ==> big_file_bytes(count)[i] == 0,
        i % 65536 != 0 ==> big_file_bytes(count)[i] == if big_file_bytes(count)[i - 1] == 250 {
            0
        } else {
            big_file_bytes(count)[i - 1] + 1
        },
{
    let m = modulus as int;
    assert(0 <= i % m < m && 0int % m == 0) by (nonlinear_arith)
        requires
            m > 0,
    ;
    if i > 0 {
        assert(i % m == if (i - 1) % m + 1 == m {
            0
        } else {
            (i - 1) % m + 1
        }) by (nonlinear_arith)
            requires
                m > 0,
                i > 0,
        ;
    }
}

} // verus!
