//! The archive itself: one parsed header and one data-file extractor.
//! Extraction resolves a name against the header, then copies the member's
//! byte range; batch operations treat every member independently, so one
//! member's failure never stops the rest.

use vstd::prelude::*;
use crate::arh::{
    Arh, ArhView, ArhError, DescView, spec_parse, spec_find_index, lemma_find_index_in_range,
    spec_resolve_desc, spec_num_resolved,
};
use crate::ard::{Ard, desc_in_range, spec_output_path, output_path};

verus! {

/// The mathematical value of one extraction attempt's outcome.
#[verifier::ext_equal]
pub enum OutcomeView {
    NotFound,
    Failed,
    Extracted { path: Seq<char>, contents: Seq<u8> },
}

/// What one extraction attempt came to: the requested name matched no
/// descriptor; or the member's byte range could not be read; or the member
/// was extracted, to `path`, with exactly its bytes.
pub enum ExtractOutcome {
    NotFound,
    Failed,
    Extracted { path: String, contents: Vec<u8> },
}

impl View for ExtractOutcome {
    type V = OutcomeView;

    open spec fn view(&self) -> OutcomeView {
        match self {
            ExtractOutcome::NotFound => OutcomeView::NotFound,
            ExtractOutcome::Failed => OutcomeView::Failed,
            ExtractOutcome::Extracted { path, contents } => OutcomeView::Extracted {
                path: path@,
                contents: contents@,
            },
        }
    }
}

/// What extracting a single already-looked-up descriptor yields.
pub open spec fn spec_extract_desc(d: DescView, directory: Seq<char>, data: Seq<u8>) -> OutcomeView {
    if desc_in_range(d, data) {
        OutcomeView::Extracted {
            path: spec_output_path(directory, d),
            contents: data.subrange(d.file_pos as int, d.file_pos + d.disk_size),
        }
    } else {
        OutcomeView::Failed
    }
}

/// What extracting one name yields, and the descriptor table it leaves
/// behind (the matched descriptor, if any, now resolved to that name).
pub open spec fn spec_extract_one(
    descs: Seq<DescView>,
    name: Seq<char>,
    directory: Seq<char>,
    data: Seq<u8>,
) -> (OutcomeView, Seq<DescView>) {
    match spec_find_index(descs, name) {
        None => (OutcomeView::NotFound, descs),
        Some(k) => {
            let d = DescView { filename: name, ..descs[k] };
            (spec_extract_desc(d, directory, data), descs.update(k, d))
        },
    }
}

/// What extracting a list of names, in order, yields.
pub open spec fn spec_extract_many(
    descs: Seq<DescView>,
    names: Seq<Seq<char>>,
    directory: Seq<char>,
    data: Seq<u8>,
) -> (Seq<OutcomeView>, Seq<DescView>)
    decreases names.len(),
{
    if names.len() == 0 {
        (Seq::empty(), descs)
    } else {
        let (first, descs1) = spec_extract_one(descs, names[0], directory, data);
        let (rest, descs2) = spec_extract_many(descs1, names.skip(1), directory, data);
        (seq![first] + rest, descs2)
    }
}

/// A batch yields one outcome per requested name and keeps the descriptor
/// count.
pub proof fn lemma_extract_many_len(
    descs: Seq<DescView>,
    names: Seq<Seq<char>>,
    directory: Seq<char>,
    data: Seq<u8>,
)
    ensures
        spec_extract_many(descs, names, directory, data).0.len() == names.len(),
        spec_extract_many(descs, names, directory, data).1.len() == descs.len(),
    decreases names.len(),
{
    if names.len() > 0 {
        let (first, descs1) = spec_extract_one(descs, names[0], directory, data);
        lemma_find_index_in_range(descs, names[0]);
        lemma_extract_many_len(descs1, names.skip(1), directory, data);
    }
}

/// How many outcomes of a batch are successful extractions.
pub open spec fn spec_count_extracted(ocs: Seq<OutcomeView>) -> int
    decreases ocs.len(),
{
    if ocs.len() == 0 {
        0int
    } else {
        spec_count_extracted(ocs.drop_last()) + if ocs.last() is Extracted {
            1int
        } else {
            0int
        }
    }
}

/// The archive: a parsed header file and the extractor for its data file.
pub struct Archive {
    pub header: Arh,
    pub archive: Ard,
}

impl Archive {
    /// Builds an archive from the header file's bytes and the data file's
    /// path. Parsing happens here, once; a header that does not parse is
    /// fatal and yields the parse error.
    pub fn open_archive(header_bytes: &[u8], archive_data: &str) -> (r: Result<Archive, ArhError>)
        ensures
            match spec_parse(header_bytes@) {
                Ok(v) => {
                    &&& r is Ok
                    &&& r.unwrap().header@ == v
                    &&& r.unwrap().archive@ == archive_data@
                },
                Err(e) => r == Result::<Archive, ArhError>::Err(e),
            },
    {
        let mut header = Arh::create();
        match header.read(header_bytes) {
            Ok(_) => Ok(Archive { header, archive: Ard::open_from_file(archive_data) }),
            Err(e) => Err(e),
        }
    }

    /// Extracts the member named `filename` from the data bytes: resolves
    /// the name against the header (recording it on the matched
    /// descriptor), then copies that member's exact byte range, to be
    /// written under `directory`. A name that matches no descriptor is
    /// reported as `NotFound` and changes nothing.
    pub fn extract_file(&mut self, filename: &str, directory: &str, data: &[u8]) -> (r:
        ExtractOutcome)
        ensures
            r@ == spec_extract_one(
                old(self).header@.file_descriptors,
                filename@,
                directory@,
                data@,
            ).0,
            final(self).header@ == (ArhView {
                file_descriptors: spec_extract_one(
                    old(self).header@.file_descriptors,
                    filename@,
                    directory@,
                    data@,
                ).1,
                ..old(self).header@
            }),
            final(self).archive@ == old(self).archive@,
    {
        proof {
            lemma_find_index_in_range(self.header@.file_descriptors, filename@);
        }
        match self.header.find_file_by_name(filename) {
            None => ExtractOutcome::NotFound,
            Some(k) => {
                proof {
                    assert(self.header@.file_descriptors.len()
                        == self.header.file_descriptors@.len());
                    assert(k < self.header.file_descriptors.len());
                }
                let path = output_path(directory, &self.header.file_descriptors[k]);
                let oc = match self.archive.extract_file(&self.header.file_descriptors[k], data) {
                    Ok(contents) => ExtractOutcome::Extracted { path, contents },
                    Err(_) => ExtractOutcome::Failed,
                };
                proof {
                    let d = DescView {
                        filename: filename@,
                        ..old(self).header@.file_descriptors[k as int]
                    };
                    assert(self.header@.file_descriptors[k as int] == d);
                    assert(oc@ =~= spec_extract_desc(d, directory@, data@));
                }
                oc
            },
        }
    }

    /// Extracts each named member in turn. Every name is attempted
    /// independently: a member that is missing or fails to extract leaves
    /// its outcome in the result and the batch moves on to the next name.
    pub fn extract_files(&mut self, filenames: &Vec<String>, directory: &str, data: &[u8]) -> (rs:
        Vec<ExtractOutcome>)
        ensures
            rs@.map_values((|o: ExtractOutcome| o@)) == spec_extract_many(
                old(self).header@.file_descriptors,
                filenames.deep_view(),
                directory@,
                data@,
            ).0,
            final(self).header@ == (ArhView {
                file_descriptors: spec_extract_many(
                    old(self).header@.file_descriptors,
                    filenames.deep_view(),
                    directory@,
                    data@,
                ).1,
                ..old(self).header@
            }),
            final(self).archive@ == old(self).archive@,
    {
        let ghost names = filenames.deep_view();
        let ghost descs0 = self.header@.file_descriptors;
        let ghost full = spec_extract_many(descs0, names, directory@, data@);
        proof {
            lemma_extract_many_len(descs0, names, directory@, data@);
            assert(names.skip(0) =~= names);
            assert(full.0.skip(0) =~= full.0);
        }
        let mut rs: Vec<ExtractOutcome> = Vec::new();
        let mut i: usize = 0;
        while i < filenames.len()
            invariant
                i <= filenames.len(),
                names == filenames.deep_view(),
                names.len() == filenames.len(),
                full == spec_extract_many(descs0, names, directory@, data@),
                rs@.len() == i,
                self.header@.magic == old(self).header@.magic,
                self.header@.file_count == old(self).header@.file_count,
                self.header@.alignment == old(self).header@.alignment,
                self.header@.unk_2 == old(self).header@.unk_2,
                self.archive@ == old(self).archive@,
                spec_extract_many(
                    self.header@.file_descriptors,
                    names.skip(i as int),
                    directory@,
                    data@,
                ).0 == full.0.skip(i as int),
                spec_extract_many(
                    self.header@.file_descriptors,
                    names.skip(i as int),
                    directory@,
                    data@,
                ).1 == full.1,
                rs@.map_values((|o: ExtractOutcome| o@)) == full.0.take(i as int),
                full.0.len() == names.len(),
            decreases filenames.len() - i,
        {
            let ghost descs_pre = self.header@.file_descriptors;
            let ghost rem = names.skip(i as int);
            proof {
                assert(rem[0] == names[i as int]);
                assert(rem.skip(1) =~= names.skip(i as int + 1));
                assert(filenames[i as int]@ == names[i as int]);
            }
            let oc = self.extract_file(filenames[i].as_str(), directory, data);
            proof {
                let first = spec_extract_one(descs_pre, names[i as int], directory@, data@).0;
                let descs1 = spec_extract_one(descs_pre, names[i as int], directory@, data@).1;
                assert(oc@ == first);
                assert(self.header@.file_descriptors == descs1);
                let tail = spec_extract_many(descs1, rem.skip(1), directory@, data@);
                assert(spec_extract_many(descs_pre, rem, directory@, data@).0 == seq![first]
                    + tail.0);
                assert(spec_extract_many(descs_pre, rem, directory@, data@).1 == tail.1);
                assert(full.0.skip(i as int) == seq![first] + tail.0);
                assert((seq![first] + tail.0).skip(1) =~= tail.0);
                assert(full.0.skip(i as int + 1) =~= full.0.skip(i as int).skip(1));
                assert(tail.0 == full.0.skip(i as int + 1));
                assert((seq![first] + tail.0)[0] == first);
                assert(full.0.skip(i as int)[0] == full.0[i as int]);
                assert(full.0[i as int] == first);
                assert(spec_extract_many(descs1, names.skip(i as int + 1), directory@, data@)
                    == tail);
            }
            rs.push(oc);
            proof {
                assert(rs@.map_values((|o: ExtractOutcome| o@)) =~= full.0.take(i as int + 1));
            }
            i = i + 1;
        }
        proof {
            assert(names.skip(names.len() as int) =~= Seq::<Seq<char>>::empty());
            assert(full.0.take(rs@.len() as int) =~= full.0);
            assert(final(self).header@ =~= (ArhView {
                file_descriptors: full.1,
                ..old(self).header@
            }));
        }
        rs
    }

    /// Extracts every member in stored order, resolved or not, each
    /// independently of the others' failures. The outcome list is in
    /// descriptor order; names are not resolved here, so an unresolved
    /// member comes out under its hex-hash name.
    pub fn extract_all(&self, directory: &str, data: &[u8]) -> (rs: Vec<ExtractOutcome>)
        ensures
            rs@.len() == self.header@.file_descriptors.len(),
            forall|i: int|
                0 <= i < rs@.len() ==> (#[trigger] rs@[i])@ == spec_extract_desc(
                    self.header@.file_descriptors[i],
                    directory@,
                    data@,
                ),
    {
        let mut rs: Vec<ExtractOutcome> = Vec::new();
        let mut i: usize = 0;
        let n = self.header.file_descriptors.len();
        while i < n
            invariant
                i <= n,
                n == self.header@.file_descriptors.len(),
                rs@.len() == i,
                forall|j: int|
                    0 <= j < i ==> (#[trigger] rs@[j])@ == spec_extract_desc(
                        self.header@.file_descriptors[j],
                        directory@,
                        data@,
                    ),
            decreases n - i,
        {
            let fd = &self.header.file_descriptors[i];
            let path = output_path(directory, fd);
            let oc = match self.archive.extract_file(fd, data) {
                Ok(contents) => ExtractOutcome::Extracted { path, contents },
                Err(_) => ExtractOutcome::Failed,
            };
            rs.push(oc);
            i = i + 1;
        }
        rs
    }

    /// Forwards a candidate name list to the header's bulk resolution;
    /// returns how many descriptors were resolved.
    pub fn supply_filenames(&mut self, filenames: &Vec<String>) -> (count: usize)
        ensures
            final(self).header@ == (ArhView {
                file_descriptors: old(self).header@.file_descriptors.map_values(
                    (|d: DescView| spec_resolve_desc(d, filenames.deep_view())),
                ),
                ..old(self).header@
            }),
            count == spec_num_resolved(old(self).header@.file_descriptors, filenames.deep_view()),
            final(self).archive@ == old(self).archive@,
    {
        self.header.supply_filenames(filenames)
    }
}

/// Counts the successful extractions in a batch outcome list, for the final
/// summary a batch caller reports.
pub fn count_extracted(rs: &Vec<ExtractOutcome>) -> (n: usize)
    ensures
        n == spec_count_extracted(rs@.map_values((|o: ExtractOutcome| o@))),
{
    let ghost ocs = rs@.map_values((|o: ExtractOutcome| o@));
    let mut n: usize = 0;
    let mut i: usize = 0;
    while i < rs.len()
        invariant
            i <= rs.len(),
            n <= i,
            ocs == rs@.map_values((|o: ExtractOutcome| o@)),
            ocs.len() == rs.len(),
            n == spec_count_extracted(ocs.take(i as int)),
        decreases rs.len() - i,
    {
        let is_hit = match &rs[i] {
            ExtractOutcome::Extracted { .. } => true,
            _ => false,
        };
        if is_hit {
            n = n + 1;
        }
        proof {
            assert(ocs.take(i as int + 1).drop_last() =~= ocs.take(i as int));
            assert(ocs.take(i as int + 1).last() == ocs[i as int]);
        }
        i = i + 1;
    }
    proof {
        assert(ocs.take(rs@.len() as int) =~= ocs);
    }
    n
}

} // verus!
