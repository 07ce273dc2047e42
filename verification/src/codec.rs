//! A tree written out as bytes, and read back.
//!
//! Numbers are eight bytes, least significant first. A run of bytes is its
//! length and then the bytes; a string is the run of its UTF-8 bytes. A
//! file is its path, its contents and what is known of its age. A
//! directory is its path, the number of its files, the files, the number
//! of its subdirectories, and the subdirectories.

use vstd::prelude::*;
use vstd::bytes::spec_u32_from_le_bytes;
use vstd::bytes::spec_u32_to_le_bytes;
use vstd::bytes::spec_u64_from_le_bytes;
use vstd::bytes::spec_u64_to_le_bytes;
use vstd::utf8::decode_utf8;
use vstd::utf8::encode_utf8;
use vstd::utf8::valid_utf8;
use crate::dir::dir_views;
use crate::dir::lemma_dir_views;
use crate::dir::lemma_dir_views_push;
use crate::dir::Dir;
use crate::dir::DirView;
use crate::file::file_views;
use crate::file::File;
use crate::file::FileView;
use crate::file::Metadata;
use crate::file::Timestamp;

verus! {

/// A length, written out.
pub open spec fn enc_len(n: nat) -> Seq<u8> {
    spec_u64_to_le_bytes(n as u64)
}

/// A run of bytes, written out: its length, then the bytes.
pub open spec fn enc_bytes(b: Seq<u8>) -> Seq<u8> {
    enc_len(b.len()) + b
}

/// A string, written out: the run of its UTF-8 bytes.
pub open spec fn enc_str(s: Seq<char>) -> Seq<u8> {
    enc_bytes(encode_utf8(s))
}

/// What is known of a file's age, written out: `0` for nothing, `1` for a
/// record without a time, `2` and the time for a record with one.
pub open spec fn enc_meta(m: Option<Metadata>) -> Seq<u8> {
    match m {
        None => seq![0u8],
        Some(Metadata { modified_at: None }) => seq![1u8],
        Some(Metadata { modified_at: Some(t) }) => seq![2u8] + spec_u64_to_le_bytes(t.secs)
            + spec_u32_to_le_bytes(t.nanos),
    }
}

/// A file, written out.
#[verifier::opaque]
pub open spec fn enc_file(f: FileView) -> Seq<u8> {
    enc_str(f.path) + enc_bytes(f.contents) + enc_meta(f.metadata)
}

/// A run of files, written out one after the other.
pub open spec fn enc_files(files: Seq<FileView>) -> Seq<u8>
    decreases files.len(),
{
    if files.len() == 0 {
        Seq::empty()
    } else {
        enc_file(files[0]) + enc_files(files.drop_first())
    }
}

/// A directory, written out.
pub open spec fn enc_dir(d: DirView) -> Seq<u8>
    decreases d, 1int,
{
    enc_str(d.path) + enc_len(d.files.len()) + enc_files(d.files) + enc_len(d.dirs.len())
        + enc_dirs(d.dirs)
}

/// A run of directories, written out one after the other.
pub open spec fn enc_dirs(dirs: Seq<DirView>) -> Seq<u8>
    decreases dirs, 0int,
{
    if dirs.len() == 0 {
        Seq::empty()
    } else {
        enc_dir(dirs[0]) + enc_dirs(dirs.drop_first())
    }
}

/// The number at the front of `b`, and what follows it.
pub open spec fn dec_u64(b: Seq<u8>) -> Option<(u64, Seq<u8>)> {
    if b.len() < 8 {
        None
    } else {
        Some((spec_u64_from_le_bytes(b.take(8)), b.skip(8)))
    }
}

/// The run of bytes at the front of `b`, and what follows it.
pub open spec fn dec_bytes(b: Seq<u8>) -> Option<(Seq<u8>, Seq<u8>)> {
    match dec_u64(b) {
        None => None,
        Some((n, rest)) => {
            if rest.len() < n {
                None
            } else {
                Some((rest.take(n as int), rest.skip(n as int)))
            }
        },
    }
}

/// The string at the front of `b`, and what follows it.
pub open spec fn dec_str(b: Seq<u8>) -> Option<(Seq<char>, Seq<u8>)> {
    match dec_bytes(b) {
        None => None,
        Some((raw, rest)) => {
            if valid_utf8(raw) {
                Some((decode_utf8(raw), rest))
            } else {
                None
            }
        },
    }
}

/// What is known of a file's age, read from the front of `b`, and what
/// follows it.
pub open spec fn dec_meta(b: Seq<u8>) -> Option<(Option<Metadata>, Seq<u8>)> {
    if b.len() == 0 {
        None
    } else if b[0] == 0 {
        Some((None, b.skip(1)))
    } else if b[0] == 1 {
        Some((Some(Metadata { modified_at: None }), b.skip(1)))
    } else if b[0] == 2 && b.len() >= 13 {
        let t = Timestamp {
            secs: spec_u64_from_le_bytes(b.subrange(1, 9)),
            nanos: spec_u32_from_le_bytes(b.subrange(9, 13)),
        };
        Some((Some(Metadata { modified_at: Some(t) }), b.skip(13)))
    } else {
        None
    }
}

/// The file at the front of `b`, and what follows it.
#[verifier::opaque]
pub open spec fn dec_file(b: Seq<u8>) -> Option<(FileView, Seq<u8>)> {
    match dec_str(b) {
        None => None,
        Some((path, r1)) => match dec_bytes(r1) {
            None => None,
            Some((contents, r2)) => match dec_meta(r2) {
                None => None,
                Some((metadata, r3)) => Some((FileView { path, contents, metadata }, r3)),
            },
        },
    }
}

/// The `n` files at the front of `b`, and what follows them.
pub open spec fn dec_files(b: Seq<u8>, n: nat) -> Option<(Seq<FileView>, Seq<u8>)>
    decreases n,
{
    if n == 0 {
        Some((Seq::empty(), b))
    } else {
        match dec_file(b) {
            None => None,
            Some((f, r1)) => match dec_files(r1, (n - 1) as nat) {
                None => None,
                Some((files, r2)) => Some((seq![f] + files, r2)),
            },
        }
    }
}

/// The directory at the front of `b`, and what follows it.
pub open spec fn dec_dir(b: Seq<u8>) -> Option<(DirView, Seq<u8>)>
    decreases b.len(), 0nat,
{
    match dec_str(b) {
        None => None,
        Some((path, r1)) => match dec_u64(r1) {
            None => None,
            Some((nf, r2)) => match dec_files(r2, nf as nat) {
                None => None,
                Some((files, r3)) => match dec_u64(r3) {
                    None => None,
                    Some((nd, r4)) => {
                        if r4.len() < b.len() {
                            match dec_dirs(r4, nd as nat) {
                                None => None,
                                Some((dirs, r5)) => Some((DirView { path, files, dirs }, r5)),
                            }
                        } else {
                            None
                        }
                    },
                },
            },
        },
    }
}

/// The `n` directories at the front of `b`, and what follows them.
pub open spec fn dec_dirs(b: Seq<u8>, n: nat) -> Option<(Seq<DirView>, Seq<u8>)>
    decreases b.len(), n + 1,
{
    if n == 0 {
        Some((Seq::empty(), b))
    } else {
        match dec_dir(b) {
            None => None,
            Some((d, r1)) => {
                if r1.len() < b.len() {
                    match dec_dirs(r1, (n - 1) as nat) {
                        None => None,
                        Some((dirs, r2)) => Some((seq![d] + dirs, r2)),
                    }
                } else {
                    None
                }
            },
        }
    }
}

/// The tree that `b` holds: the directory at its front, where nothing
/// follows it.
pub open spec fn decode(b: Seq<u8>) -> Option<DirView> {
    match dec_dir(b) {
        Some((d, rest)) => {
            if rest.len() == 0 {
                Some(d)
            } else {
                None
            }
        },
        None => None,
    }
}

/// Whether a string's length can be written out.
pub open spec fn str_fits(s: Seq<char>) -> bool {
    encode_utf8(s).len() <= u64::MAX
}

/// Whether every length in a file can be written out.
pub open spec fn file_fits(f: FileView) -> bool {
    str_fits(f.path) && f.contents.len() <= u64::MAX
}

/// Whether every length in a directory, and in all below it, can be
/// written out.
pub open spec fn dir_fits(d: DirView) -> bool
    decreases d,
{
    &&& str_fits(d.path)
    &&& d.files.len() <= u64::MAX
    &&& d.dirs.len() <= u64::MAX
    &&& forall|i: int| 0 <= i < d.files.len() ==> file_fits(#[trigger] d.files[i])
    &&& forall|i: int| 0 <= i < d.dirs.len() ==> dir_fits(#[trigger] d.dirs[i])
}

/// A number that was written out is read back, and what followed it
/// follows.
pub proof fn lemma_u64_back(n: u64, tail: Seq<u8>)
    ensures
        spec_u64_to_le_bytes(n).len() == 8,
        dec_u64(spec_u64_to_le_bytes(n) + tail) == Some((n, tail)),
{
    vstd::bytes::lemma_auto_spec_u64_to_from_le_bytes();
    let e = spec_u64_to_le_bytes(n);
    assert((e + tail).take(8) =~= e);
    assert((e + tail).skip(8) =~= tail);
}

/// A run of bytes that was written out is read back.
pub proof fn lemma_bytes_back(b: Seq<u8>, tail: Seq<u8>)
    requires
        b.len() <= u64::MAX,
    ensures
        enc_bytes(b).len() == 8 + b.len(),
        dec_bytes(enc_bytes(b) + tail) == Some((b, tail)),
{
    lemma_u64_back(b.len() as u64, b + tail);
    assert(enc_bytes(b) + tail =~= enc_len(b.len()) + (b + tail));
    assert((b + tail).take(b.len() as int) =~= b);
    assert((b + tail).skip(b.len() as int) =~= tail);
}

/// A string that was written out is read back.
pub proof fn lemma_str_back(s: Seq<char>, tail: Seq<u8>)
    requires
        str_fits(s),
    ensures
        enc_str(s).len() >= 8,
        dec_str(enc_str(s) + tail) == Some((s, tail)),
{
    lemma_bytes_back(encode_utf8(s), tail);
    vstd::utf8::encode_utf8_valid_utf8(s);
    vstd::utf8::encode_utf8_decode_utf8(s);
}

/// What is known of a file's age is read back as it was written out.
pub proof fn lemma_meta_back(m: Option<Metadata>, tail: Seq<u8>)
    ensures
        dec_meta(enc_meta(m) + tail) == Some((m, tail)),
{
    let b = enc_meta(m) + tail;
    match m {
        None => {
            assert(b.skip(1) =~= tail);
        },
        Some(Metadata { modified_at: None }) => {
            assert(b.skip(1) =~= tail);
        },
        Some(Metadata { modified_at: Some(t) }) => {
            vstd::bytes::lemma_auto_spec_u64_to_from_le_bytes();
            vstd::bytes::lemma_auto_spec_u32_to_from_le_bytes();
            let s = spec_u64_to_le_bytes(t.secs);
            let n = spec_u32_to_le_bytes(t.nanos);
            assert(b.subrange(1, 9) =~= s);
            assert(b.subrange(9, 13) =~= n);
            assert(b.skip(13) =~= tail);
        },
    }
}

/// A file that was written out is read back.
pub proof fn lemma_file_back(f: FileView, tail: Seq<u8>)
    requires
        file_fits(f),
    ensures
        dec_file(enc_file(f) + tail) == Some((f, tail)),
{
    reveal(enc_file);
    reveal(dec_file);
    let m = enc_meta(f.metadata);
    let c = enc_bytes(f.contents);
    lemma_str_back(f.path, c + (m + tail));
    lemma_bytes_back(f.contents, m + tail);
    lemma_meta_back(f.metadata, tail);
    assert(enc_file(f) + tail =~= enc_str(f.path) + (c + (m + tail)));
}

/// Files that were written out are read back.
pub proof fn lemma_files_back(files: Seq<FileView>, tail: Seq<u8>)
    requires
        forall|i: int| 0 <= i < files.len() ==> file_fits(#[trigger] files[i]),
    ensures
        dec_files(enc_files(files) + tail, files.len()) == Some((files, tail)),
    decreases files.len(),
{
    let b = enc_files(files) + tail;
    if files.len() == 0 {
        assert(b =~= tail);
        assert(files =~= Seq::<FileView>::empty());
    } else {
        let first = files[0];
        let rest = files.drop_first();
        let after = enc_files(rest) + tail;
        assert forall|i: int| 0 <= i < rest.len() implies file_fits(#[trigger] rest[i]) by {
            assert(rest[i] == files[i + 1]);
        }
        lemma_files_back(rest, tail);
        assert(dec_file(b) == Some((first, after))) by {
            lemma_file_back(first, after);
            assert(b =~= enc_file(first) + after);
        }
        assert(dec_files(after, (files.len() - 1) as nat) == Some((rest, tail)));
        assert(seq![first] + rest =~= files);
    }
}

/// A directory that was written out is read back, and so is a run of
/// directories.
pub proof fn lemma_dir_back(d: DirView, tail: Seq<u8>)
    requires
        dir_fits(d),
    ensures
        dec_dir(enc_dir(d) + tail) == Some((d, tail)),
    decreases d, 1int,
{
    let p = enc_str(d.path);
    let nf = enc_len(d.files.len());
    let fs = enc_files(d.files);
    let nd = enc_len(d.dirs.len());
    let ds = enc_dirs(d.dirs);
    let b = enc_dir(d) + tail;
    lemma_str_back(d.path, nf + (fs + (nd + (ds + tail))));
    lemma_u64_back(d.files.len() as u64, fs + (nd + (ds + tail)));
    lemma_files_back(d.files, nd + (ds + tail));
    lemma_u64_back(d.dirs.len() as u64, ds + tail);
    lemma_dirs_back(d.dirs, tail);
    assert(b =~= p + (nf + (fs + (nd + (ds + tail)))));
}

/// Directories that were written out are read back.
pub proof fn lemma_dirs_back(dirs: Seq<DirView>, tail: Seq<u8>)
    requires
        forall|i: int| 0 <= i < dirs.len() ==> dir_fits(#[trigger] dirs[i]),
    ensures
        dec_dirs(enc_dirs(dirs) + tail, dirs.len()) == Some((dirs, tail)),
    decreases dirs, 0int,
{
    if dirs.len() == 0 {
        assert(enc_dirs(dirs) + tail =~= tail);
        assert(dirs =~= Seq::<DirView>::empty());
    } else {
        let rest = dirs.drop_first();
        assert forall|i: int| 0 <= i < rest.len() implies dir_fits(#[trigger] rest[i]) by {
            assert(rest[i] == dirs[i + 1]);
        }
        lemma_dirs_back(rest, tail);
        lemma_dir_back(dirs[0], enc_dirs(rest) + tail);
        lemma_str_back(dirs[0].path, Seq::empty());
        assert(enc_dirs(dirs) + tail =~= enc_dir(dirs[0]) + (enc_dirs(rest) + tail));
        assert(seq![dirs[0]] + rest =~= dirs);
    }
}

/// A tree that is written out and read back is the same tree: the same
/// paths, the same contents, the same order.
pub proof fn lemma_round_trip(d: DirView)
    requires
        dir_fits(d),
    ensures
        decode(enc_dir(d)) == Some(d),
{
    lemma_dir_back(d, Seq::empty());
    assert(enc_dir(d) + Seq::<u8>::empty() =~= enc_dir(d));
}

/// Files written out with one more behind them.
pub proof fn lemma_enc_files_push(files: Seq<FileView>, f: FileView)
    ensures
        enc_files(files.push(f)) == enc_files(files) + enc_file(f),
    decreases files.len(),
{
    let all = files.push(f);
    if files.len() == 0 {
        assert(all.drop_first() =~= Seq::<FileView>::empty());
        assert(enc_files(all.drop_first()) =~= Seq::<u8>::empty());
        assert(enc_files(all) =~= enc_file(f));
        assert(enc_files(files) + enc_file(f) =~= enc_file(f));
    } else {
        lemma_enc_files_push(files.drop_first(), f);
        assert(all.drop_first() =~= files.drop_first().push(f));
        assert(enc_files(all) =~= enc_files(files) + enc_file(f));
    }
}

/// Directories written out with one more behind them.
pub proof fn lemma_enc_dirs_push(dirs: Seq<DirView>, d: DirView)
    ensures
        enc_dirs(dirs.push(d)) == enc_dirs(dirs) + enc_dir(d),
    decreases dirs.len(),
{
    let all = dirs.push(d);
    if dirs.len() == 0 {
        assert(all.drop_first() =~= Seq::<DirView>::empty());
        assert(enc_dirs(all.drop_first()) =~= Seq::<u8>::empty());
        assert(enc_dirs(all) =~= enc_dir(d));
        assert(enc_dirs(dirs) + enc_dir(d) =~= enc_dir(d));
    } else {
        lemma_enc_dirs_push(dirs.drop_first(), d);
        assert(all.drop_first() =~= dirs.drop_first().push(d));
        assert(enc_dirs(all) =~= enc_dirs(dirs) + enc_dir(d));
    }
}

fn put_raw(out: &mut Vec<u8>, b: &[u8])
    ensures
        final(out)@ == old(out)@ + b@,
{
    let mut i: usize = 0;
    proof {
        assert(out@ =~= old(out)@ + b@.take(0));
    }
    while i < b.len()
        invariant
            i <= b.len(),
            out@ == old(out)@ + b@.take(i as int),
        decreases b.len() - i,
    {
        out.push(b[i]);
        proof {
            assert(b@.take(i + 1) =~= b@.take(i as int).push(b@[i as int]));
            assert(out@ =~= old(out)@ + b@.take(i + 1));
        }
        i += 1;
    }
    proof {
        assert(b@.take(i as int) =~= b@);
    }
}

fn put_len(out: &mut Vec<u8>, n: usize)
    ensures
        final(out)@ == old(out)@ + enc_len(n as nat),
        n <= u64::MAX,
{
    let b = vstd::bytes::u64_to_le_bytes(n as u64);
    put_raw(out, b.as_slice());
}

fn put_bytes(out: &mut Vec<u8>, b: &[u8])
    ensures
        final(out)@ == old(out)@ + enc_bytes(b@),
        b@.len() <= u64::MAX,
{
    put_len(out, b.len());
    put_raw(out, b);
    proof {
        assert(old(out)@ + enc_len(b@.len()) + b@ =~= old(out)@ + enc_bytes(b@));
    }
}

fn put_str(out: &mut Vec<u8>, s: &str)
    ensures
        final(out)@ == old(out)@ + enc_str(s@),
        str_fits(s@),
{
    put_bytes(out, s.as_bytes());
}

fn put_meta(out: &mut Vec<u8>, m: Option<Metadata>)
    ensures
        final(out)@ == old(out)@ + enc_meta(m),
{
    match m {
        None => {
            out.push(0u8);
            proof {
                assert(out@ =~= old(out)@ + seq![0u8]);
            }
        },
        Some(Metadata { modified_at: None }) => {
            out.push(1u8);
            proof {
                assert(out@ =~= old(out)@ + seq![1u8]);
            }
        },
        Some(Metadata { modified_at: Some(t) }) => {
            out.push(2u8);
            let secs = vstd::bytes::u64_to_le_bytes(t.secs);
            put_raw(out, secs.as_slice());
            let nanos = vstd::bytes::u32_to_le_bytes(t.nanos);
            put_raw(out, nanos.as_slice());
            proof {
                assert(out@ =~= old(out)@ + (seq![2u8] + spec_u64_to_le_bytes(t.secs)
                    + spec_u32_to_le_bytes(t.nanos)));
            }
        },
    }
}

fn put_file(out: &mut Vec<u8>, f: &File)
    ensures
        final(out)@ == old(out)@ + enc_file(f@),
        file_fits(f@),
{
    put_str(out, f.path.as_str());
    put_bytes(out, f.contents.as_slice());
    put_meta(out, f.metadata);
    proof {
        reveal(enc_file);
        assert(out@ =~= old(out)@ + enc_file(f@));
    }
}

fn put_dir(out: &mut Vec<u8>, d: &Dir)
    ensures
        final(out)@ == old(out)@ + enc_dir(d@),
        dir_fits(d@),
    decreases d,
{
    let ghost start = out@;
    let ghost files = d@.files;
    let ghost dirs = d@.dirs;
    put_str(out, d.path.as_str());
    put_len(out, d.files.len());
    let ghost head = out@;
    let mut i: usize = 0;
    proof {
        assert(files.take(0) =~= Seq::<FileView>::empty());
        assert(head + enc_files(files.take(0)) =~= head);
    }
    while i < d.files.len()
        invariant
            i <= d.files.len(),
            files == d@.files,
            files.len() == d.files.len(),
            out@ == head + enc_files(files.take(i as int)),
            forall|j: int| 0 <= j < i ==> file_fits(#[trigger] files[j]),
        decreases d.files.len() - i,
    {
        let ghost before = out@;
        put_file(out, &d.files[i]);
        proof {
            assert(files[i as int] == d.files@[i as int]@);
            assert(files.take(i + 1) =~= files.take(i as int).push(files[i as int]));
            lemma_enc_files_push(files.take(i as int), files[i as int]);
            assert(out@ =~= head + enc_files(files.take(i + 1)));
        }
        i += 1;
    }
    proof {
        assert(files.take(i as int) =~= files);
        lemma_dir_views(d.dirs@);
    }
    put_len(out, d.dirs.len());
    let ghost mid = out@;
    let mut j: usize = 0;
    proof {
        assert(dirs.take(0) =~= Seq::<DirView>::empty());
        assert(mid + enc_dirs(dirs.take(0)) =~= mid);
    }
    while j < d.dirs.len()
        invariant
            j <= d.dirs.len(),
            dirs == d@.dirs,
            dirs.len() == d.dirs.len(),
            forall|k: int| 0 <= k < d.dirs.len() ==> dirs[k] == d.dirs@[k]@,
            out@ == mid + enc_dirs(dirs.take(j as int)),
            forall|k: int| 0 <= k < j ==> dir_fits(#[trigger] dirs[k]),
        decreases d.dirs.len() - j,
    {
        put_dir(out, &d.dirs[j]);
        proof {
            assert(dirs.take(j + 1) =~= dirs.take(j as int).push(dirs[j as int]));
            lemma_enc_dirs_push(dirs.take(j as int), dirs[j as int]);
            assert(out@ =~= mid + enc_dirs(dirs.take(j + 1)));
        }
        j += 1;
    }
    proof {
        assert(dirs.take(j as int) =~= dirs);
        assert(out@ =~= start + enc_dir(d@));
    }
}

impl Dir {
    /// Writes the tree out as bytes. Read back with [`Dir::from_bytes`],
    /// they give the same tree.
    pub fn to_bytes(&self) -> (bytes: Vec<u8>)
        ensures
            bytes@ == enc_dir(self@),
            decode(bytes@) == Some(self@),
    {
        let mut bytes: Vec<u8> = Vec::new();
        put_dir(&mut bytes, self);
        proof {
            assert(Seq::<u8>::empty() + enc_dir(self@) =~= enc_dir(self@));
            lemma_round_trip(self@);
        }
        bytes
    }
}

/// Turns bytes into the string that they spell in UTF-8, by
/// `String::from_utf8` of the standard library. That function succeeds on
/// valid UTF-8 and on nothing else, and the string it makes has the given
/// bytes as its own; both are taken on trust here.
#[verifier::external_body]
fn string_from_utf8(bytes: Vec<u8>) -> (r: Option<String>)
    ensures
        r is Some <==> valid_utf8(bytes@),
        r matches Some(s) ==> encode_utf8(s@) == bytes@,
{
    String::from_utf8(bytes).ok()
}

/// The files read so far, in front of those that follow, where those could
/// be read.
spec fn files_after(front: Seq<FileView>, rest: Option<(Seq<FileView>, Seq<u8>)>) -> Option<
    (Seq<FileView>, Seq<u8>),
> {
    match rest {
        Some((files, tail)) => Some((front + files, tail)),
        None => None,
    }
}

/// The directories read so far, in front of those that follow, where those
/// could be read.
spec fn dirs_after(front: Seq<DirView>, rest: Option<(Seq<DirView>, Seq<u8>)>) -> Option<
    (Seq<DirView>, Seq<u8>),
> {
    match rest {
        Some((dirs, tail)) => Some((front + dirs, tail)),
        None => None,
    }
}

fn take_u64(bytes: &[u8], pos: usize) -> (r: Option<(u64, usize)>)
    requires
        pos <= bytes.len(),
    ensures
        match dec_u64(bytes@.skip(pos as int)) {
            None => r is None,
            Some((n, rest)) => r matches Some((m, next)) && m == n && pos < next <= bytes.len()
                && bytes@.skip(next as int) == rest,
        },
{
    if bytes.len() - pos < 8 {
        return None;
    }
    let n = vstd::bytes::u64_from_le_bytes(vstd::slice::slice_subrange(bytes, pos, pos + 8));
    proof {
        assert(bytes@.skip(pos as int).take(8) =~= bytes@.subrange(pos as int, pos + 8));
        assert(bytes@.skip(pos as int).skip(8) =~= bytes@.skip(pos + 8));
    }
    Some((n, pos + 8))
}

fn take_bytes(bytes: &[u8], pos: usize) -> (r: Option<(Vec<u8>, usize)>)
    requires
        pos <= bytes.len(),
    ensures
        match dec_bytes(bytes@.skip(pos as int)) {
            None => r is None,
            Some((b, rest)) => r matches Some((raw, next)) && raw@ == b && pos < next
                <= bytes.len() && bytes@.skip(next as int) == rest,
        },
{
    let (n, start) = match take_u64(bytes, pos) {
        None => {
            return None;
        },
        Some(found) => found,
    };
    let left: usize = bytes.len() - start;
    if n > left as u64 {
        return None;
    }
    let len: usize = n as usize;
    let raw = vstd::slice::slice_to_vec(vstd::slice::slice_subrange(bytes, start, start + len));
    proof {
        assert(bytes@.skip(start as int).take(n as int) =~= bytes@.subrange(
            start as int,
            start + len,
        ));
        assert(bytes@.skip(start as int).skip(n as int) =~= bytes@.skip(start + len));
    }
    Some((raw, start + len))
}

fn take_str(bytes: &[u8], pos: usize) -> (r: Option<(String, usize)>)
    requires
        pos <= bytes.len(),
    ensures
        match dec_str(bytes@.skip(pos as int)) {
            None => r is None,
            Some((s, rest)) => r matches Some((text, next)) && text@ == s && pos < next
                <= bytes.len() && bytes@.skip(next as int) == rest,
        },
{
    let (raw, next) = match take_bytes(bytes, pos) {
        None => {
            return None;
        },
        Some(found) => found,
    };
    match string_from_utf8(raw) {
        None => None,
        Some(text) => {
            proof {
                vstd::utf8::encode_utf8_decode_utf8(text@);
            }
            Some((text, next))
        },
    }
}

fn take_meta(bytes: &[u8], pos: usize) -> (r: Option<(Option<Metadata>, usize)>)
    requires
        pos <= bytes.len(),
    ensures
        match dec_meta(bytes@.skip(pos as int)) {
            None => r is None,
            Some((m, rest)) => r matches Some((meta, next)) && meta == m && pos < next
                <= bytes.len() && bytes@.skip(next as int) == rest,
        },
{
    let ghost b = bytes@.skip(pos as int);
    if pos >= bytes.len() {
        return None;
    }
    let tag = bytes[pos];
    proof {
        assert(b[0] == tag);
        assert(b.skip(1) =~= bytes@.skip(pos + 1));
    }
    if tag == 0 {
        Some((None, pos + 1))
    } else if tag == 1 {
        Some((Some(Metadata { modified_at: None }), pos + 1))
    } else if tag == 2 && bytes.len() - pos >= 13 {
        let secs = vstd::bytes::u64_from_le_bytes(
            vstd::slice::slice_subrange(bytes, pos + 1, pos + 9),
        );
        let nanos = vstd::bytes::u32_from_le_bytes(
            vstd::slice::slice_subrange(bytes, pos + 9, pos + 13),
        );
        proof {
            assert(b.subrange(1, 9) =~= bytes@.subrange(pos + 1, pos + 9));
            assert(b.subrange(9, 13) =~= bytes@.subrange(pos + 9, pos + 13));
            assert(b.skip(13) =~= bytes@.skip(pos + 13));
        }
        Some((Some(Metadata { modified_at: Some(Timestamp { secs, nanos }) }), pos + 13))
    } else {
        None
    }
}

fn take_file(bytes: &[u8], pos: usize) -> (r: Option<(File, usize)>)
    requires
        pos <= bytes.len(),
    ensures
        match dec_file(bytes@.skip(pos as int)) {
            None => r is None,
            Some((f, rest)) => r matches Some((file, next)) && file@ == f && pos < next
                <= bytes.len() && bytes@.skip(next as int) == rest,
        },
{
    proof {
        reveal(dec_file);
    }
    let (path, at_contents) = match take_str(bytes, pos) {
        None => {
            return None;
        },
        Some(found) => found,
    };
    let (contents, at_meta) = match take_bytes(bytes, at_contents) {
        None => {
            return None;
        },
        Some(found) => found,
    };
    let (metadata, end) = match take_meta(bytes, at_meta) {
        None => {
            return None;
        },
        Some(found) => found,
    };
    Some((File { path, contents, metadata }, end))
}

#[verifier::loop_isolation(false)]
fn take_dir(bytes: &[u8], pos: usize) -> (r: Option<(Dir, usize)>)
    requires
        pos <= bytes.len(),
    ensures
        match dec_dir(bytes@.skip(pos as int)) {
            None => r is None,
            Some((d, rest)) => r matches Some((dir, next)) && dir@ == d && pos < next
                <= bytes.len() && bytes@.skip(next as int) == rest,
        },
    decreases bytes.len() - pos,
{
    let ghost b = bytes@.skip(pos as int);
    let (path, at_count) = match take_str(bytes, pos) {
        None => {
            return None;
        },
        Some(found) => found,
    };
    let (nf, at_files) = match take_u64(bytes, at_count) {
        None => {
            return None;
        },
        Some(found) => found,
    };
    let mut files: Vec<File> = Vec::new();
    let mut cur: usize = at_files;
    let mut i: u64 = 0;
    let ghost want_files = dec_files(bytes@.skip(at_files as int), nf as nat);
    proof {
        assert(file_views(files@) =~= Seq::<FileView>::empty());
        if want_files is Some {
            let (all, tail) = want_files->0;
            assert(Seq::<FileView>::empty() + all =~= all);
        }
    }
    while i < nf
        invariant
            i <= nf,
            at_files <= cur <= bytes.len(),
            want_files == dec_files(bytes@.skip(at_files as int), nf as nat),
            want_files == files_after(
                file_views(files@),
                dec_files(bytes@.skip(cur as int), (nf - i) as nat),
            ),
        decreases nf - i,
    {
        let ghost front = file_views(files@);
        let ghost here = bytes@.skip(cur as int);
        match take_file(bytes, cur) {
            None => {
                return None;
            },
            Some((f, next)) => {
                proof {
                    let after = dec_files(bytes@.skip(next as int), (nf - i - 1) as nat);
                    if after is Some {
                        let (more, tail) = after->0;
                        assert(front + (seq![f@] + more) =~= front.push(f@) + more);
                    }
                }
                files.push(f);
                proof {
                    assert(file_views(files@) =~= front.push(f@));
                }
                cur = next;
            },
        }
        i += 1;
    }
    proof {
        assert(file_views(files@) + Seq::<FileView>::empty()
            =~= file_views(files@));
    }
    let (nd, at_dirs) = match take_u64(bytes, cur) {
        None => {
            return None;
        },
        Some(found) => found,
    };
    let mut dirs: Vec<Dir> = Vec::new();
    let mut at: usize = at_dirs;
    let mut j: u64 = 0;
    let ghost want_dirs = dec_dirs(bytes@.skip(at_dirs as int), nd as nat);
    proof {
        assert(dir_views(dirs@) =~= Seq::<DirView>::empty());
        if want_dirs is Some {
            let (all, tail) = want_dirs->0;
            assert(Seq::<DirView>::empty() + all =~= all);
        }
    }
    while j < nd
        invariant
            j <= nd,
            pos < at_dirs <= at <= bytes.len(),
            want_dirs == dec_dirs(bytes@.skip(at_dirs as int), nd as nat),
            want_dirs == dirs_after(
                dir_views(dirs@),
                dec_dirs(bytes@.skip(at as int), (nd - j) as nat),
            ),
        decreases nd - j,
    {
        let ghost front = dir_views(dirs@);
        match take_dir(bytes, at) {
            None => {
                return None;
            },
            Some((d, next)) => {
                proof {
                    let after = dec_dirs(bytes@.skip(next as int), (nd - j - 1) as nat);
                    if after is Some {
                        let (more, tail) = after->0;
                        assert(front + (seq![d@] + more) =~= front.push(d@) + more);
                    }
                    lemma_dir_views_push(dirs@, d);
                }
                dirs.push(d);
                at = next;
            },
        }
        j += 1;
    }
    proof {
        assert(dir_views(dirs@) + Seq::<DirView>::empty() =~= dir_views(
            dirs@,
        ));
    }
    Some((Dir { path, files, dirs }, at))
}

impl Dir {
    /// Reads a tree back from the bytes that [`Dir::to_bytes`] wrote. Bytes
    /// that are not a tree written out, whole and with nothing behind it,
    /// give nothing.
    pub fn from_bytes(bytes: &[u8]) -> (r: Option<Dir>)
        ensures
            match decode(bytes@) {
                Some(d) => r matches Some(tree) && tree@ == d,
                None => r is None,
            },
    {
        proof {
            assert(bytes@.skip(0) =~= bytes@);
        }
        match take_dir(bytes, 0) {
            None => None,
            Some((tree, next)) => {
                if next == bytes.len() {
                    Some(tree)
                } else {
                    None
                }
            },
        }
    }
}

} // verus!
