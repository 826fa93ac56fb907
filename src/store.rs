use vstd::hash_map::StringHashMap;
use vstd::prelude::*;

use crate::decode::{decode_header, decode_record, lossy_text_of};
use crate::format::{
    file_contents, header_field, lemma_records_error_persists, record_field, records_field,
    FormatError, LoadError,
};

verus! {

/// The word-to-vector table that a sequence of records builds: each record is
/// inserted in turn, so a later record replaces an earlier one with the same word.
pub open spec fn table_of(rs: Seq<(Seq<u8>, Seq<u32>)>) -> Map<Seq<char>, Seq<u32>>
    decreases rs.len(),
{
    if rs.len() == 0 {
        Map::empty()
    } else {
        table_of(rs.drop_last()).insert(lossy_text_of(rs.last().0), rs.last().1)
    }
}

pub open spec fn word_views(ws: Seq<String>) -> Seq<Seq<char>> {
    ws.map_values(|w: String| w@)
}

pub open spec fn vectors_view(m: Map<Seq<char>, Vec<u32>>) -> Map<Seq<char>, Seq<u32>> {
    Map::new(|k: Seq<char>| m.contains_key(k), |k: Seq<char>| m[k]@)
}

/// Word-to-vector table built from a whole file; a later record with the same
/// word replaces the earlier one.
pub struct Store {
    table: StringHashMap<Vec<u32>>,
    words: Vec<String>,
    dimension: u32,
    record_count: u32,
}

impl Store {
    pub closed spec fn table_view(&self) -> Map<Seq<char>, Seq<u32>> {
        vectors_view(self.table@)
    }

    pub closed spec fn spec_dimension(&self) -> u32 {
        self.dimension
    }

    pub closed spec fn spec_record_count(&self) -> u32 {
        self.record_count
    }

    /// The word list holds each key of the table exactly once.
    pub closed spec fn wf(&self) -> bool {
        &&& word_views(self.words@).no_duplicates()
        &&& forall|k: Seq<char>| word_views(self.words@).contains(k) == self.table@.contains_key(k)
    }

    /// Decodes a whole file image: the header, exactly `record_count` records,
    /// and nothing after them.
    pub fn from_bytes(bytes: &[u8]) -> (r: Result<Store, LoadError>)
        ensures
            match r {
                Ok(st) => match file_contents(bytes@) {
                    Ok((c, d, rs)) => {
                        &&& st.wf()
                        &&& st.spec_record_count() == c
                        &&& st.spec_dimension() == d
                        &&& st.table_view() == table_of(rs)
                    },
                    Err(_) => false,
                },
                Err(e) => file_contents(bytes@) == Err::<(int, int, Seq<(Seq<u8>, Seq<u32>)>), (int, FormatError)>(
                    (e.offset as int, e.error),
                ),
            },
    {
        let (k, header) = match decode_header(bytes) {
            Ok(p) => p,
            Err(e) => return Err(LoadError { offset: 0, error: e }),
        };
        let dim = header.dimension;
        let count = header.record_count;
        let total = bytes.len();
        let mut pos = k;
        let mut table = StringHashMap::<Vec<u32>>::new();
        let mut words: Vec<String> = Vec::new();
        let mut i: u32 = 0;
        let ghost mut rs: Seq<(Seq<u8>, Seq<u32>)> = Seq::empty();
        proof {
            assert(vectors_view(table@) =~= table_of(rs));
            assert(word_views(words@) =~= Seq::<Seq<char>>::empty());
        }
        while i < count
            invariant
                total == bytes@.len(),
                header_field(bytes@) == Ok::<(int, int, int), FormatError>((k as int, count as int, dim as int)),
                i <= count,
                pos <= bytes@.len(),
                records_field(bytes@, k as int, i as nat, dim) == Ok::<
                    (int, Seq<(Seq<u8>, Seq<u32>)>),
                    (int, FormatError),
                >((pos as int, rs)),
                vectors_view(table@) == table_of(rs),
                word_views(words@).no_duplicates(),
                forall|w: Seq<char>| word_views(words@).contains(w) == table@.contains_key(w),
            decreases count - i,
        {
            if pos == total {
                proof {
                    lemma_records_error_persists(bytes@, k as int, (i + 1) as nat, count as nat, dim);
                }
                return Err(LoadError { offset: pos, error: FormatError::LengthMismatch });
            }
            let rest = vstd::slice::slice_subrange(bytes, pos, total);
            let (n, rec) = match decode_record(rest, dim) {
                Ok(p) => p,
                Err(e) => {
                    proof {
                        lemma_records_error_persists(bytes@, k as int, (i + 1) as nat, count as nat, dim);
                    }
                    return Err(LoadError { offset: pos, error: e });
                },
            };
            let ghost token = rest@.subrange(0, n - 4 * dim - 1);
            let ghost vec = rec.vector@;
            let ghost old_views = word_views(words@);
            let ghost old_table = table@;
            let word = rec.word;
            if !table.contains_key(word.as_str()) {
                let copy = word.clone();
                words.push(copy);
                proof {
                    let nv = word_views(words@);
                    assert(nv =~= old_views.push(word@));
                    assert forall|a: int, b: int| 0 <= a < b < nv.len() implies nv[a] != nv[b] by {
                        if b == old_views.len() {
                            assert(old_views.contains(old_views[a]));
                        }
                    }
                }
            }
            table.insert(word, rec.vector);
            proof {
                let nv = word_views(words@);
                assert forall|w: Seq<char>| nv.contains(w) == table@.contains_key(w) by {
                    if old_views.contains(w) {
                        let j = choose|j: int| 0 <= j < old_views.len() && old_views[j] == w;
                        assert(nv[j] == w);
                    }
                    if w == word@ && !old_views.contains(w) {
                        assert(nv[old_views.len() as int] == w);
                    }
                    if nv.contains(w) {
                        let j = choose|j: int| 0 <= j < nv.len() && nv[j] == w;
                        if j < old_views.len() {
                            assert(old_views[j] == w);
                        }
                    }
                }
                let nrs = rs.push((token, vec));
                assert(nrs.drop_last() =~= rs);
                assert(vectors_view(table@) =~= table_of(rs).insert(lossy_text_of(token), vec));
                rs = nrs;
            }
            pos = pos + n;
            i = i + 1;
        }
        if pos != total {
            return Err(LoadError { offset: pos, error: FormatError::LengthMismatch });
        }
        Ok(Store { table, words, dimension: dim, record_count: count })
    }

    /// The vector stored for `word`, if any.
    pub fn lookup(&self, word: &str) -> (r: Option<&Vec<u32>>)
        ensures
            match r {
                Some(v) => self.table_view().contains_key(word@) && v@ == self.table_view()[word@],
                None => !self.table_view().contains_key(word@),
            },
    {
        self.table.get(word)
    }

    /// The words of the store, each once, in order of first appearance.
    pub fn words(&self) -> (r: &Vec<String>)
        requires
            self.wf(),
        ensures
            word_views(r@).no_duplicates(),
            word_views(r@).to_set() == self.table_view().dom(),
    {
        proof {
            assert(word_views(self.words@).to_set() =~= self.table_view().dom());
        }
        &self.words
    }

    /// Number of entries in the table.
    pub fn len(&self) -> (r: usize)
        ensures
            r == self.table_view().len(),
    {
        proof {
            assert(self.table_view().dom() =~= self.table@.dom());
        }
        self.table.len()
    }

    pub fn dimension(&self) -> (r: u32)
        ensures
            r == self.spec_dimension(),
    {
        self.dimension
    }

    pub fn record_count(&self) -> (r: u32)
        ensures
            r == self.spec_record_count(),
    {
        self.record_count
    }
}

} // verus!
