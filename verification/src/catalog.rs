//! The records of a whole file, in order and checked.

use vstd::prelude::*;

use crate::error::ParseError;
use crate::record::{
    lemma_missing_label, lemma_record_shape, misses_label, parse_fixture, record_of, Dimensions,
    Fixture, FixtureView, FIELDS,
};

verus! {

/// What a list of records holds, record by record.
pub open spec fn views_of(fixtures: Seq<Fixture>) -> Seq<FixtureView> {
    Seq::new(fixtures.len(), |i: int| fixtures[i]@)
}

/// The first `count` records of `s`, each read where the one before it ends.
pub open spec fn records_of(s: Seq<u8>, dims: Dimensions, count: nat) -> Result<
    Seq<FixtureView>,
    ParseError,
>
    decreases count,
{
    if count == 0 {
        Ok(Seq::empty())
    } else {
        match record_of(s, dims) {
            Err(e) => Err(e),
            Ok((first, used)) => match records_of(
                s.subrange(used, s.len() as int),
                dims,
                (count - 1) as nat,
            ) {
                Err(e) => Err(e),
                Ok(rest) => Ok(seq![first] + rest),
            },
        }
    }
}

/// Whether every record has its place in the list as its index.
pub open spec fn in_order(fixtures: Seq<FixtureView>) -> bool {
    forall|i: int| 0 <= i < fixtures.len() ==> (#[trigger] fixtures[i]).index == i
}

/// Whether every record has the sizes that `dims` gives.
pub open spec fn all_shaped(fixtures: Seq<FixtureView>, dims: Dimensions) -> bool {
    forall|i: int| 0 <= i < fixtures.len() ==> (#[trigger] fixtures[i]).has_shape(dims)
}

/// The catalog that a file of `count` records gives: its records, if all of
/// them can be read and their indices are 0, 1, 2, ... in this order. An
/// error in any record comes before a gap in the indices.
pub open spec fn catalog_of(s: Seq<u8>, dims: Dimensions, count: nat) -> Result<
    Seq<FixtureView>,
    ParseError,
> {
    match records_of(s, dims, count) {
        Err(e) => Err(e),
        Ok(fixtures) => if in_order(fixtures) {
            Ok(fixtures)
        } else {
            Err(ParseError::SequenceGapError)
        },
    }
}

/// The records of one file. Every catalog holds its records in the order of
/// their indices, from zero on and without a gap, each with the sizes of the
/// catalog's dimensions.
pub struct Catalog {
    dims: Dimensions,
    fixtures: Vec<Fixture>,
}

impl View for Catalog {
    type V = Seq<FixtureView>;

    closed spec fn view(&self) -> Seq<FixtureView> {
        views_of(self.fixtures@)
    }
}

impl Catalog {
    #[verifier::type_invariant]
    spec fn well_formed(self) -> bool {
        &&& in_order(views_of(self.fixtures@))
        &&& all_shaped(views_of(self.fixtures@), self.dims)
        &&& self.fixtures@.len() <= u32::MAX
    }

    /// The sizes that every record of the catalog has.
    pub closed spec fn dims(&self) -> Dimensions {
        self.dims
    }

    /// Reads a file of `count` records. The catalog is built as a whole or
    /// not at all: the first record that cannot be read gives its error, and
    /// records out of order give `SequenceGapError`.
    pub fn load(text: &[u8], dims: &Dimensions, count: u32) -> (r: Result<Catalog, ParseError>)
        ensures
            match r {
                Ok(catalog) => {
                    &&& catalog_of(text@, *dims, count as nat) == Ok::<
                        Seq<FixtureView>,
                        ParseError,
                    >(catalog@)
                    &&& catalog.dims() == *dims
                    &&& catalog@.len() == count
                    &&& in_order(catalog@)
                    &&& all_shaped(catalog@, *dims)
                },
                Err(e) => catalog_of(text@, *dims, count as nat) == Err::<
                    Seq<FixtureView>,
                    ParseError,
                >(e),
            },
    {
        Loader::new(text, dims, count).finish()
    }

    /// The number of records.
    pub fn len(&self) -> (n: usize)
        ensures
            n == self@.len(),
    {
        self.fixtures.len()
    }

    /// The record of index `i`, if there is one.
    pub fn get(&self, i: usize) -> (r: Option<&Fixture>)
        ensures
            match r {
                Some(fixture) => i < self@.len() && fixture@ == self@[i as int] && fixture.index
                    == i && fixture@.has_shape(self.dims()),
                None => i >= self@.len(),
            },
    {
        proof {
            use_type_invariant(self);
        }
        if i < self.fixtures.len() {
            let fixture = &self.fixtures[i];
            assert(views_of(self.fixtures@)[i as int] == fixture@);
            Some(fixture)
        } else {
            None
        }
    }

    /// All records, in the order of their indices.
    pub fn fixtures(&self) -> (all: &[Fixture])
        ensures
            views_of(all@) == self@,
            in_order(self@),
            all_shaped(self@, self.dims()),
    {
        proof {
            use_type_invariant(self);
        }
        self.fixtures.as_slice()
    }

    /// The sizes that every record of the catalog has.
    pub fn dimensions(&self) -> (dims: Dimensions)
        ensures
            dims == self.dims(),
    {
        self.dims
    }
}

/// How far the reading of a file has come. Reading starts as `Loading`; it
/// ends as `Ready` or as `Failed` and then stays so.
#[derive(Clone, Copy, Debug, PartialEq, Eq, Structural)]
pub enum Progress {
    /// Records are still to be read, or their order is still to be looked at.
    Loading,
    /// All records were read and are in order.
    Ready,
    /// A record could not be read, or the records are out of order.
    Failed,
}

/// What a loader holds, as plain values.
pub struct LoaderView {
    /// The text that was not read yet.
    pub rest: Seq<u8>,
    /// The sizes that every record must have.
    pub dims: Dimensions,
    /// The number of records that the file is read for.
    pub wanted: nat,
    /// The records read so far.
    pub fixtures: Seq<FixtureView>,
    /// How far the reading has come.
    pub progress: Progress,
    /// The error, where the reading has failed.
    pub error: ParseError,
}

impl LoaderView {
    /// What the reading ends in: the records of the catalog, or the error.
    pub open spec fn end(self) -> Result<Seq<FixtureView>, ParseError> {
        match self.progress {
            Progress::Failed => Err(self.error),
            Progress::Ready => Ok(self.fixtures),
            Progress::Loading => match records_of(
                self.rest,
                self.dims,
                (self.wanted - self.fixtures.len()) as nat,
            ) {
                Err(e) => Err(e),
                Ok(more) => if in_order(self.fixtures + more) {
                    Ok(self.fixtures + more)
                } else {
                    Err(ParseError::SequenceGapError)
                },
            },
        }
    }

    /// The most steps that the reading can still take.
    pub open spec fn steps_left(self) -> nat {
        if self.progress == Progress::Loading {
            (self.wanted - self.fixtures.len() + 1) as nat
        } else {
            0
        }
    }
}

/// The reading of a file in progress: the text that was not read yet and the
/// records read so far.
pub struct Loader<'a> {
    rest: &'a [u8],
    dims: Dimensions,
    wanted: u32,
    fixtures: Vec<Fixture>,
    progress: Progress,
    error: ParseError,
}

impl<'a> View for Loader<'a> {
    type V = LoaderView;

    closed spec fn view(&self) -> LoaderView {
        LoaderView {
            rest: self.rest@,
            dims: self.dims,
            wanted: self.wanted as nat,
            fixtures: views_of(self.fixtures@),
            progress: self.progress,
            error: self.error,
        }
    }
}

fn indices_in_order(fixtures: &Vec<Fixture>) -> (ok: bool)
    requires
        fixtures@.len() <= u32::MAX,
    ensures
        ok == in_order(views_of(fixtures@)),
{
    let mut i: usize = 0;
    while i < fixtures.len()
        invariant
            i <= fixtures@.len() <= u32::MAX,
            forall|j: int| 0 <= j < i ==> (#[trigger] views_of(fixtures@)[j]).index == j,
        decreases fixtures@.len() - i,
    {
        if fixtures[i].index != i as u32 {
            proof {
                assert(views_of(fixtures@)[i as int].index != i);
            }
            return false;
        }
        i = i + 1;
    }
    true
}

impl<'a> Loader<'a> {
    #[verifier::type_invariant]
    spec fn well_formed(self) -> bool {
        &&& self.fixtures@.len() <= self.wanted
        &&& all_shaped(views_of(self.fixtures@), self.dims)
        &&& self.progress == Progress::Ready ==> self.fixtures@.len() == self.wanted && in_order(
            views_of(self.fixtures@),
        )
    }

    /// Starts the reading of a file of `count` records.
    pub fn new(text: &'a [u8], dims: &Dimensions, count: u32) -> (loader: Self)
        ensures
            loader@ == (LoaderView {
                rest: text@,
                dims: *dims,
                wanted: count as nat,
                fixtures: Seq::empty(),
                progress: Progress::Loading,
                error: loader@.error,
            }),
            loader@.end() == catalog_of(text@, *dims, count as nat),
    {
        let loader = Loader {
            rest: text,
            dims: *dims,
            wanted: count,
            fixtures: Vec::new(),
            progress: Progress::Loading,
            error: ParseError::TruncatedInput,
        };
        proof {
            assert(views_of(loader.fixtures@) =~= Seq::<FixtureView>::empty());
            match records_of(text@, *dims, count as nat) {
                Ok(all) => {
                    assert(Seq::<FixtureView>::empty() + all =~= all);
                },
                Err(_) => {},
            }
        }
        loader
    }

    /// How far the reading has come.
    pub fn progress(&self) -> (p: Progress)
        ensures
            p == self@.progress,
    {
        self.progress
    }

    /// Takes one step: reads the next record, or, when all records are read,
    /// looks at their order. A reading that is ready or has failed stays as
    /// it is. No step changes what the reading ends in.
    pub fn step(self) -> (next: Self)
        ensures
            next@.end() == self@.end(),
            next@.dims == self@.dims,
            next@.wanted == self@.wanted,
            self@.progress != Progress::Loading ==> next@ == self@,
            self@.progress == Progress::Loading ==> next@.steps_left() < self@.steps_left(),
    {
        proof {
            use_type_invariant(&self);
        }
        match self.progress {
            Progress::Loading => {},
            _ => {
                return self;
            },
        }
        let Loader { rest, dims, wanted, mut fixtures, progress, error } = self;
        let ghost before = views_of(fixtures@);
        if fixtures.len() < wanted as usize {
            match parse_fixture(rest, &dims) {
                Err(e) => Loader { rest, dims, wanted, fixtures, progress: Progress::Failed, error: e },
                Ok((fixture, behind)) => {
                    proof {
                        let after = views_of(fixtures@.push(fixture));
                        assert(after =~= before.push(fixture@));
                        match records_of(behind@, dims, (wanted - fixtures@.len() - 1) as nat) {
                            Ok(more) => {
                                assert(before + (seq![fixture@] + more) =~= after + more);
                            },
                            Err(_) => {},
                        }
                    }
                    fixtures.push(fixture);
                    Loader { rest: behind, dims, wanted, fixtures, progress, error }
                },
            }
        } else {
            proof {
                assert(before + Seq::<FixtureView>::empty() =~= before);
            }
            if indices_in_order(&fixtures) {
                Loader { rest, dims, wanted, fixtures, progress: Progress::Ready, error }
            } else {
                Loader {
                    rest,
                    dims,
                    wanted,
                    fixtures,
                    progress: Progress::Failed,
                    error: ParseError::SequenceGapError,
                }
            }
        }
    }

    /// Reads on to the end. Returns the catalog if the reading gets ready,
    /// and the error if it fails.
    pub fn finish(self) -> (r: Result<Catalog, ParseError>)
        ensures
            match r {
                Ok(catalog) => {
                    &&& self@.end() == Ok::<Seq<FixtureView>, ParseError>(catalog@)
                    &&& catalog.dims() == self@.dims
                    &&& catalog@.len() == self@.wanted
                    &&& in_order(catalog@)
                    &&& all_shaped(catalog@, self@.dims)
                },
                Err(e) => self@.end() == Err::<Seq<FixtureView>, ParseError>(e),
            },
    {
        let ghost start = self@;
        let mut loader = self;
        while loader.progress == Progress::Loading
            invariant
                loader@.end() == start.end(),
                loader@.dims == start.dims,
                loader@.wanted == start.wanted,
            decreases loader@.steps_left(),
        {
            loader = loader.step();
        }
        proof {
            use_type_invariant(&loader);
        }
        let Loader { rest, dims, wanted, fixtures, progress, error } = loader;
        match progress {
            Progress::Ready => Ok(Catalog { dims, fixtures }),
            _ => Err(error),
        }
    }
}

/// The text that is left of `s` behind its first `j` records.
pub open spec fn text_after(s: Seq<u8>, dims: Dimensions, j: nat) -> Option<Seq<u8>>
    decreases j,
{
    if j == 0 {
        Some(s)
    } else {
        match record_of(s, dims) {
            Err(_) => None,
            Ok((_, used)) => text_after(s.subrange(used, s.len() as int), dims, (j - 1) as nat),
        }
    }
}

/// A file whose records can all be read gives as many records as were asked
/// for, each with the sizes of the dimensions.
pub proof fn lemma_records_shape(s: Seq<u8>, dims: Dimensions, count: nat)
    ensures
        records_of(s, dims, count) matches Ok(fixtures) ==> fixtures.len() == count && all_shaped(
            fixtures,
            dims,
        ),
    decreases count,
{
    if count > 0 {
        if let Ok((first, used)) = record_of(s, dims) {
            lemma_record_shape(s, dims);
            let behind = s.subrange(used, s.len() as int);
            lemma_records_shape(behind, dims, (count - 1) as nat);
            if let Ok(rest) = records_of(behind, dims, (count - 1) as nat) {
                let all = seq![first] + rest;
                assert forall|i: int| 0 <= i < all.len() implies (#[trigger] all[i]).has_shape(
                    dims,
                ) by {
                    if i > 0 {
                        assert(all[i] == rest[i - 1]);
                    }
                }
            }
        }
    }
}

/// In a catalog the record of index `i` stands at place `i`: the indices are
/// 0, 1, 2, ... up to the number of records, without a gap and in this order.
pub proof fn lemma_catalog_in_order(s: Seq<u8>, dims: Dimensions, count: nat)
    ensures
        catalog_of(s, dims, count) matches Ok(fixtures) ==> {
            &&& fixtures.len() == count
            &&& forall|i: int| 0 <= i < count ==> (#[trigger] fixtures[i]).index == i
            &&& all_shaped(fixtures, dims)
        },
{
    lemma_records_shape(s, dims, count);
}

/// A record that cannot be read fails the reading of the records with its
/// own error.
pub proof fn lemma_bad_record_fails_records(s: Seq<u8>, dims: Dimensions, count: nat, j: nat)
    requires
        j < count,
        text_after(s, dims, j) matches Some(rest) && record_of(rest, dims) is Err,
    ensures
        records_of(s, dims, count) == Err::<Seq<FixtureView>, ParseError>(
            record_of(text_after(s, dims, j)->Some_0, dims)->Err_0,
        ),
    decreases j,
{
    if j > 0 {
        lemma_record_shape(s, dims);
        let used = record_of(s, dims)->Ok_0.1;
        lemma_bad_record_fails_records(
            s.subrange(used, s.len() as int),
            dims,
            (count - 1) as nat,
            (j - 1) as nat,
        );
    }
}

/// A record that cannot be read fails the whole file with its own error: no
/// catalog is made of the records before it.
pub proof fn lemma_bad_record_fails_catalog(s: Seq<u8>, dims: Dimensions, count: nat, j: nat)
    requires
        j < count,
        text_after(s, dims, j) matches Some(rest) && record_of(rest, dims) is Err,
    ensures
        catalog_of(s, dims, count) == Err::<Seq<FixtureView>, ParseError>(
            record_of(text_after(s, dims, j)->Some_0, dims)->Err_0,
        ),
{
    lemma_bad_record_fails_records(s, dims, count, j);
}

/// A file in which the label of one field of one record is missing gives no
/// catalog but `LabelMismatch`.
pub proof fn lemma_missing_label_fails_catalog(
    s: Seq<u8>,
    dims: Dimensions,
    count: nat,
    j: nat,
    k: int,
)
    requires
        j < count,
        0 <= k < FIELDS,
        text_after(s, dims, j) matches Some(rest) && misses_label(rest, k),
    ensures
        catalog_of(s, dims, count) == Err::<Seq<FixtureView>, ParseError>(
            ParseError::LabelMismatch,
        ),
{
    lemma_missing_label(text_after(s, dims, j)->Some_0, dims, k);
    lemma_bad_record_fails_catalog(s, dims, count, j);
}

} // verus!
