//! The header block: splitting it into lines, reading each line as a
//! `key: value` field, and the mapping the block denotes.

use vstd::prelude::*;

use crate::errors::DecodeError;
use crate::scan::{
    bytes_eq, find_byte_from, find_from, lemma_find_from, lemma_find_from_found, subvec, trim,
    trim_spec, COLON, NL,
};

verus! {

/// The lines of `s` from `start` on, split on the line feed byte. Splitting
/// always yields at least one (possibly empty) segment, as the text split
/// of the decoded block does.
pub open spec fn split_lines_from(s: Seq<u8>, start: int) -> Seq<Seq<u8>>
    decreases s.len() - start when 0 <= start <= s.len() via split_lines_from_decreases
{
    match find_from(s, NL, start) {
        None => seq![s.subrange(start, s.len() as int)],
        Some(j) => seq![s.subrange(start, j)] + split_lines_from(s, j + 1),
    }
}

#[via_fn]
proof fn split_lines_from_decreases(s: Seq<u8>, start: int) {
    lemma_find_from(s, NL, start);
}

/// The key and value a header line denotes: the trimmed text before the
/// first colon, and the trimmed text between the first colon and the second
/// one (or the end of the line). A line without a colon denotes nothing.
pub open spec fn line_key_val(line: Seq<u8>) -> Option<(Seq<u8>, Seq<u8>)> {
    match find_from(line, COLON, 0) {
        None => None,
        Some(i) => {
            let after = line.subrange(i + 1, line.len() as int);
            let raw = match find_from(after, COLON, 0) {
                None => after,
                Some(j) => after.subrange(0, j),
            };
            Some((trim_spec(line.subrange(0, i)), trim_spec(raw)))
        },
    }
}

/// The mapping a sequence of header lines denotes, a later line overwriting
/// an earlier one with the same key; nothing if any line lacks a colon.
pub open spec fn headers_from_lines(lines: Seq<Seq<u8>>) -> Option<Map<Seq<u8>, Seq<u8>>>
    decreases lines.len(),
{
    if lines.len() == 0 {
        Some(Map::empty())
    } else {
        match (headers_from_lines(lines.drop_last()), line_key_val(lines.last())) {
            (Some(m), Some(kv)) => Some(m.insert(kv.0, kv.1)),
            _ => None,
        }
    }
}

/// The mapping a whole header block denotes.
pub open spec fn header_map_of(block: Seq<u8>) -> Option<Map<Seq<u8>, Seq<u8>>> {
    headers_from_lines(split_lines_from(block, 0))
}

/// The mapping that a list of key/value fields denotes, a later field
/// overwriting an earlier one with the same key.
pub open spec fn fields_map(fs: Seq<(Vec<u8>, Vec<u8>)>) -> Map<Seq<u8>, Seq<u8>>
    decreases fs.len(),
{
    if fs.len() == 0 {
        Map::empty()
    } else {
        fields_map(fs.drop_last()).insert(fs.last().0@, fs.last().1@)
    }
}

/// Fields whose keys all differ from `k` do not affect what the mapping
/// holds at `k`.
proof fn lemma_fields_map_no_key(fs: Seq<(Vec<u8>, Vec<u8>)>, i: int, k: Seq<u8>)
    requires
        0 <= i <= fs.len(),
        forall|m: int| i <= m < fs.len() ==> (#[trigger] fs[m]).0@ != k,
    ensures
        fields_map(fs).contains_key(k) == fields_map(fs.take(i)).contains_key(k),
        fields_map(fs).contains_key(k) ==> fields_map(fs)[k] == fields_map(fs.take(i))[k],
    decreases fs.len() - i,
{
    if i == fs.len() {
        assert(fs.take(i) =~= fs);
    } else {
        lemma_fields_map_no_key(fs, i + 1, k);
        assert(fs.take(i + 1).drop_last() =~= fs.take(i));
        assert(fs.take(i + 1).last() == fs[i]);
    }
}

/// A header mapping: the key/value fields of one frame's header block, in
/// the order their lines stand in the block.
pub struct HeaderMap {
    /// The fields as parsed, one per header line, earliest first.
    pub fields: Vec<(Vec<u8>, Vec<u8>)>,
}

impl View for HeaderMap {
    type V = Map<Seq<u8>, Seq<u8>>;

    open spec fn view(&self) -> Map<Seq<u8>, Seq<u8>> {
        fields_map(self.fields@)
    }
}

impl HeaderMap {
    /// The value stored under `key`, the latest field with that key winning.
    pub fn get(&self, key: &Vec<u8>) -> (r: Option<&Vec<u8>>)
        ensures
            match r {
                Some(v) => self@.contains_key(key@) && v@ == self@[key@],
                None => !self@.contains_key(key@),
            },
    {
        let mut i: usize = self.fields.len();
        while i > 0
            invariant
                i <= self.fields@.len(),
                forall|m: int| i <= m < self.fields@.len() ==> (#[trigger] self.fields@[m]).0@
                    != key@,
            decreases i,
        {
            i -= 1;
            if bytes_eq(&self.fields[i].0, key) {
                proof {
                    lemma_fields_map_no_key(self.fields@, i + 1, key@);
                    assert(self.fields@.take(i + 1).drop_last() =~= self.fields@.take(i as int));
                    assert(self.fields@.take(i + 1).last() == self.fields@[i as int]);
                }
                return Some(&self.fields[i].1);
            }
        }
        proof {
            lemma_fields_map_no_key(self.fields@, 0, key@);
            assert(self.fields@.take(0) =~= Seq::<(Vec<u8>, Vec<u8>)>::empty());
        }
        None
    }
}

/// A line with no colon anywhere in the block makes the whole block denote
/// nothing.
proof fn lemma_headers_from_lines_none(lines: Seq<Seq<u8>>, i: int)
    requires
        0 <= i < lines.len(),
        line_key_val(lines[i]) is None,
    ensures
        headers_from_lines(lines) is None,
    decreases lines.len(),
{
    if i < lines.len() - 1 {
        assert(lines.drop_last()[i] == lines[i]);
        lemma_headers_from_lines_none(lines.drop_last(), i);
    }
}

/// Split `src` into its lines on the line feed byte.
fn split_block_lines(src: &Vec<u8>) -> (lines: Vec<Vec<u8>>)
    ensures
        lines.deep_view() == split_lines_from(src@, 0),
{
    let total = src.len();
    let mut lines: Vec<Vec<u8>> = Vec::new();
    let mut start: usize = 0;
    loop
        invariant_except_break
            start <= src@.len(),
            total == src@.len(),
            split_lines_from(src@, 0) == lines.deep_view() + split_lines_from(src@, start as int),
        ensures
            split_lines_from(src@, 0) == lines.deep_view(),
        decreases src@.len() - start,
    {
        match find_byte_from(src, NL, start) {
            None => {
                let line = subvec(src, start, src.len());
                let ghost old_lines = lines.deep_view();
                lines.push(line);
                proof {
                    assert(lines.deep_view() =~~= old_lines.push(line@));
                    assert(split_lines_from(src@, start as int) == seq![
                        src@.subrange(start as int, src@.len() as int),
                    ]);
                    assert(lines.deep_view() =~~= old_lines + split_lines_from(
                        src@,
                        start as int,
                    ));
                }
                break ;
            },
            Some(j) => {
                proof {
                    lemma_find_from(src@, NL, start as int);
                }
                let line = subvec(src, start, j);
                let ghost old_lines = lines.deep_view();
                lines.push(line);
                proof {
                    assert(lines.deep_view() =~~= old_lines.push(line@));
                    assert(split_lines_from(src@, start as int) == seq![
                        src@.subrange(start as int, j as int),
                    ] + split_lines_from(src@, j + 1));
                    assert(old_lines + split_lines_from(src@, start as int) =~~= lines.deep_view()
                        + split_lines_from(src@, j + 1));
                }
                start = j + 1;
            },
        }
    }
    lines
}

/// Turn a header block into its mapping: each line is split on its first
/// colon into a trimmed key and a trimmed value (anything after a second
/// colon is discarded), and a later line with the same key overwrites an
/// earlier one. A line with no colon is a malformed header.
pub fn parse_header(src: &Vec<u8>) -> (r: Result<HeaderMap, DecodeError>)
    ensures
        match header_map_of(src@) {
            Some(m) => r matches Ok(hm) && hm@ == m,
            None => r == Err::<HeaderMap, DecodeError>(DecodeError::MalformedHeader),
        },
{
    let lines = split_block_lines(src);
    let ghost lseq = lines.deep_view();
    let mut fields: Vec<(Vec<u8>, Vec<u8>)> = Vec::new();
    let mut i: usize = 0;
    while i < lines.len()
        invariant
            i <= lines@.len(),
            lseq == lines.deep_view(),
            lseq == split_lines_from(src@, 0),
            headers_from_lines(lseq.take(i as int)) == Some(fields_map(fields@)),
        decreases lines@.len() - i,
    {
        let line = &lines[i];
        proof {
            assert(lseq[i as int] == lines@[i as int].deep_view());
            assert(lines@[i as int].deep_view() =~= line@);
        }
        match find_byte_from(line, COLON, 0) {
            None => {
                proof {
                    lemma_headers_from_lines_none(lseq, i as int);
                }
                return Err(DecodeError::MalformedHeader);
            },
            Some(c) => {
                proof {
                    lemma_find_from(line@, COLON, 0);
                }
                let before = subvec(line, 0, c);
                let key = trim(&before);
                let after = subvec(line, c + 1, line.len());
                let raw = match find_byte_from(&after, COLON, 0) {
                    None => after,
                    Some(c2) => {
                        proof {
                            lemma_find_from(after@, COLON, 0);
                        }
                        subvec(&after, 0, c2)
                    },
                };
                let val = trim(&raw);
                let ghost old_fields = fields@;
                fields.push((key, val));
                proof {
                    assert(line_key_val(lseq[i as int]) == Some((key@, val@)));
                    assert(lseq.take(i + 1).drop_last() =~= lseq.take(i as int));
                    assert(lseq.take(i + 1).last() == lseq[i as int]);
                    assert(fields@.drop_last() =~= old_fields);
                    assert(fields@.last() == (key, val));
                    assert(fields_map(fields@) == fields_map(old_fields).insert(key@, val@));
                    assert(headers_from_lines(lseq.take(i + 1)) == Some(fields_map(fields@)));
                }
                i += 1;
            },
        }
    }
    proof {
        assert(lseq.take(i as int) =~= lseq);
    }
    Ok(HeaderMap { fields })
}


/// When a field appears on more than one line of a block, the later line
/// wins: the block's mapping holds the value of the last line bearing the
/// key.
pub proof fn lemma_later_field_wins(lines: Seq<Seq<u8>>, j: int, k: Seq<u8>, v: Seq<u8>)
    requires
        headers_from_lines(lines) is Some,
        0 <= j < lines.len(),
        line_key_val(lines[j]) == Some((k, v)),
        forall|m: int|
            j < m < lines.len() ==> ((#[trigger] line_key_val(lines[m])) matches Some(kv)
                ==> kv.0 != k),
    ensures
        headers_from_lines(lines)->Some_0.contains_key(k),
        headers_from_lines(lines)->Some_0[k] == v,
    decreases lines.len(),
{
    if j == lines.len() - 1 {
        assert(lines.last() == lines[j]);
    } else {
        let prior = lines.drop_last();
        assert(headers_from_lines(prior) is Some);
        assert(prior[j] == lines[j]);
        assert forall|m: int|
            j < m < prior.len() implies ((#[trigger] line_key_val(prior[m])) matches Some(kv)
            ==> kv.0 != k) by {
            assert(prior[m] == lines[m]);
        };
        lemma_later_field_wins(prior, j, k, v);
        let last = lines.len() - 1;
        assert(lines.last() == lines[last]);
        assert(line_key_val(lines[last]) matches Some(kv) ==> kv.0 != k);
    }
}

/// Colon truncation: in a line `key:first:rest` the parsed value is the
/// trimmed text between the first two colons only — whatever follows the
/// second colon is discarded.
pub proof fn lemma_colon_truncation(key: Seq<u8>, first: Seq<u8>, rest: Seq<u8>)
    requires
        forall|i: int| 0 <= i < key.len() ==> (#[trigger] key[i]) != COLON,
        forall|i: int| 0 <= i < first.len() ==> (#[trigger] first[i]) != COLON,
    ensures
        line_key_val(key + seq![COLON] + first + seq![COLON] + rest) == Some(
            (trim_spec(key), trim_spec(first)),
        ),
{
    let a1 = key + seq![COLON];
    let a2 = a1 + first;
    let a3 = a2 + seq![COLON];
    let line = a3 + rest;
    let kl = key.len() as int;
    let fl = first.len() as int;
    assert(line[kl] == COLON);
    assert forall|m: int| 0 <= m < kl implies (#[trigger] line[m]) != COLON by {
        assert(line[m] == a3[m]);
        assert(a3[m] == a2[m]);
        assert(a2[m] == a1[m]);
        assert(a1[m] == key[m]);
    };
    lemma_find_from_found(line, COLON, 0, kl);
    let after = line.subrange(kl + 1, line.len() as int);
    assert(after =~= first + seq![COLON] + rest);
    assert(after[fl] == COLON);
    assert forall|m: int| 0 <= m < fl implies (#[trigger] after[m]) != COLON by {
        assert(after[m] == first[m]);
    };
    lemma_find_from_found(after, COLON, 0, fl);
    assert(after.subrange(0, fl) =~= first);
    assert(line.subrange(0, kl) =~= key);
}

} // verus!
