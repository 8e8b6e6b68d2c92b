//! Metadata bootstrap: the single fixed page recording the root page's offset
//! and the paths of the backing data and overflow files, and the validation
//! and path derivation used when a schema is created.
//!
//! The format is `[root_offset:4][data_path_len:4][data_path_bytes]`
//! `[extra_path_len:4][extra_path_bytes]`, all integers little-endian.

use crate::layout::{agree_outside, le32_at, lemma_le32_frame, lemma_subrange_frame};
use crate::page::Page;
use vstd::prelude::*;

verus! {

pub open spec fn meta_root_offset(s: Seq<u8>) -> u32 {
    le32_at(s, 0)
}

pub open spec fn meta_data_path_len(s: Seq<u8>) -> int {
    le32_at(s, 4) as int
}

pub open spec fn meta_data_path(s: Seq<u8>) -> Seq<u8> {
    s.subrange(8, 8 + meta_data_path_len(s))
}

pub open spec fn meta_extra_path_len(s: Seq<u8>) -> int {
    le32_at(s, 8 + meta_data_path_len(s)) as int
}

pub open spec fn meta_extra_path(s: Seq<u8>) -> Seq<u8> {
    s.subrange(
        12 + meta_data_path_len(s),
        12 + meta_data_path_len(s) + meta_extra_path_len(s),
    )
}

/// The stored lengths fit the page.
pub open spec fn meta_wf(s: Seq<u8>) -> bool {
    &&& 12 <= s.len() <= u32::MAX
    &&& 12 + meta_data_path_len(s) <= s.len()
    &&& 12 + meta_data_path_len(s) + meta_extra_path_len(s) <= s.len()
}

/// The engine's bootstrap record: sizing parameters and the metadata page.
pub struct MeteData {
    pub page_size: u32,
    pub key_max_length: u32,
    pub value_threshold: u32,
    pub mete_page: Page,
}

impl MeteData {
    pub fn get_root_page_offset(&self) -> (r: u32)
        requires
            4 <= self.mete_page@.len() <= u32::MAX,
        ensures
            r == meta_root_offset(self.mete_page@),
    {
        self.mete_page.read_u32(0)
    }

    pub fn get_data_file_path(&self) -> (r: Vec<u8>)
        requires
            meta_wf(self.mete_page@),
        ensures
            r@ == meta_data_path(self.mete_page@),
    {
        let data_file_path_size = self.mete_page.read_u32(4) as usize;
        self.mete_page.read_bytes(8, data_file_path_size)
    }

    pub fn get_extra_file_path(&self) -> (r: Vec<u8>)
        requires
            meta_wf(self.mete_page@),
        ensures
            r@ == meta_extra_path(self.mete_page@),
    {
        let data_file_path_size = self.mete_page.read_u32(4) as usize;
        let extra_file_path_size = self.mete_page.read_u32(4 + 4 + data_file_path_size) as usize;
        self.mete_page.read_bytes(4 + 4 + data_file_path_size + 4, extra_file_path_size)
    }
}

/// Writes the bootstrap record over a fresh metadata page: a zero root offset
/// and the two length-prefixed file paths.
pub fn init_mete_page(page: &mut Page, data_file_path: &[u8], extra_file_path: &[u8])
    requires
        old(page)@.len() == 12 + data_file_path@.len() + extra_file_path@.len(),
        old(page)@.len() <= u32::MAX,
    ensures
        final(page)@.len() == old(page)@.len(),
        meta_wf(final(page)@),
        meta_root_offset(final(page)@) == 0,
        meta_data_path(final(page)@) == data_file_path@,
        meta_extra_path(final(page)@) == extra_file_path@,
{
    let ghost dlen = data_file_path@.len() as int;
    let ghost elen = extra_file_path@.len() as int;
    page.write_u32(0, 0u32);
    let ghost s1 = page@;
    page.write_u32(4, data_file_path.len() as u32);
    let ghost s2 = page@;
    page.write_bytes(4 + 4, data_file_path);
    let ghost s3 = page@;
    page.write_u32(4 + 4 + data_file_path.len(), extra_file_path.len() as u32);
    let ghost s4 = page@;
    page.write_bytes(4 + 4 + data_file_path.len() + 4, extra_file_path);
    proof {
        let s5 = page@;
        assert(meta_root_offset(s5) == 0) by {
            lemma_le32_frame(s2, s1, 4, 8, 0);
            lemma_le32_frame(s3, s2, 8, 8 + dlen, 0);
            lemma_le32_frame(s4, s3, 8 + dlen, 12 + dlen, 0);
            lemma_le32_frame(s5, s4, 12 + dlen, 12 + dlen + elen, 0);
        }
        assert(meta_data_path_len(s5) == dlen) by {
            lemma_le32_frame(s3, s2, 8, 8 + dlen, 4);
            lemma_le32_frame(s4, s3, 8 + dlen, 12 + dlen, 4);
            lemma_le32_frame(s5, s4, 12 + dlen, 12 + dlen + elen, 4);
        }
        assert(meta_data_path(s5) == data_file_path@) by {
            lemma_subrange_frame(s4, s3, 8 + dlen, 12 + dlen, 8, 8 + dlen);
            lemma_subrange_frame(s5, s4, 12 + dlen, 12 + dlen + elen, 8, 8 + dlen);
        }
        assert(meta_extra_path_len(s5) == elen) by {
            lemma_le32_frame(s5, s4, 12 + dlen, 12 + dlen + elen, 8 + dlen);
        }
        assert(meta_extra_path(s5) == extra_file_path@);
    }
}

/// Whether some character of the name is an ASCII lowercase letter or digit.
pub open spec fn is_schema_name_char(c: char) -> bool {
    (97 <= c as int <= 122) || (48 <= c as int <= 57)
}

pub open spec fn schema_name_ok(s: Seq<char>) -> bool {
    exists|i: int| 0 <= i < s.len() && is_schema_name_char(s[i])
}

/// Relies on regex::Regex::is_match with the pattern "[a-z]|[0-9]+?": the
/// pattern matches somewhere in the name exactly when some character of the
/// name is an ASCII lowercase letter or an ASCII digit.
#[verifier::external_body]
fn schema_name_has_match(schema_name: &str) -> (r: bool)
    ensures
        r == schema_name_ok(schema_name@),
{
    let schema_name_regex = regex::Regex::new(r"[a-z]|[0-9]+?").unwrap();
    schema_name_regex.is_match(schema_name)
}

/// A schema name is accepted when it holds at least one ASCII lowercase
/// letter or digit.
pub fn schema_name_valid(schema_name: &str) -> (r: bool)
    ensures
        r == schema_name_ok(schema_name@),
{
    schema_name_has_match(schema_name)
}

/// The directory path with exactly one trailing separator.
pub open spec fn normalized_dir(d: Seq<u8>) -> Seq<u8> {
    if d.len() > 0 && d.last() == 47u8 {
        d
    } else {
        d.push(47u8)
    }
}

/// The path of one schema file: directory, schema name, a dot, and the
/// one-letter kind suffix.
pub open spec fn schema_file_name(d: Seq<u8>, n: Seq<u8>, suffix: u8) -> Seq<u8> {
    normalized_dir(d) + n + seq![46u8, suffix]
}

fn push_bytes(dst: &mut Vec<u8>, src: &[u8])
    ensures
        final(dst)@ == old(dst)@ + src@,
{
    let mut i: usize = 0;
    while i < src.len()
        invariant
            i <= src@.len(),
            dst@ =~= old(dst)@ + src@.subrange(0, i as int),
        decreases src@.len() - i,
    {
        dst.push(src[i]);
        i = i + 1;
    }
    proof {
        assert(dst@ =~= old(dst)@ + src@);
    }
}

/// Derives the metadata, data and overflow file paths of a schema from the
/// data directory and the schema name.
pub fn schema_file_paths(data_dir: &[u8], schema_name: &[u8]) -> (r: (Vec<u8>, Vec<u8>, Vec<u8>))
    ensures
        r.0@ == schema_file_name(data_dir@, schema_name@, 109u8),
        r.1@ == schema_file_name(data_dir@, schema_name@, 100u8),
        r.2@ == schema_file_name(data_dir@, schema_name@, 101u8),
{
    let mut base: Vec<u8> = Vec::new();
    push_bytes(&mut base, data_dir);
    if base.len() == 0 || base[base.len() - 1] != 47 {
        base.push(47);
    }
    proof {
        assert(base@ =~= normalized_dir(data_dir@));
    }
    let mut mete_file_path: Vec<u8> = Vec::new();
    push_bytes(&mut mete_file_path, base.as_slice());
    push_bytes(&mut mete_file_path, schema_name);
    mete_file_path.push(46);
    mete_file_path.push(109);
    let mut data_file_path: Vec<u8> = Vec::new();
    push_bytes(&mut data_file_path, base.as_slice());
    push_bytes(&mut data_file_path, schema_name);
    data_file_path.push(46);
    data_file_path.push(100);
    let mut extra_file_path: Vec<u8> = Vec::new();
    push_bytes(&mut extra_file_path, base.as_slice());
    push_bytes(&mut extra_file_path, schema_name);
    extra_file_path.push(46);
    extra_file_path.push(101);
    proof {
        assert(mete_file_path@ =~= schema_file_name(data_dir@, schema_name@, 109u8));
        assert(data_file_path@ =~= schema_file_name(data_dir@, schema_name@, 100u8));
        assert(extra_file_path@ =~= schema_file_name(data_dir@, schema_name@, 101u8));
    }
    (mete_file_path, data_file_path, extra_file_path)
}

} // verus!
