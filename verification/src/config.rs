//! The bundle specification: what goes into a bundle, and in what order its
//! directories are searched.

use crate::error::BuildError;
use vstd::prelude::*;
use vstd::string::*;

verus! {

/// One entry of the bundle's search order.
#[derive(Clone, Debug)]
pub enum BundleSearchOrder {
    /// A path pattern, taken as it is.
    Plain(String),
    /// The search order of the input of this name.
    Input { input: String },
}

/// What an input is read from.
#[derive(Clone, Copy, Debug, PartialEq, Eq, Structural)]
pub enum InputKind {
    /// A directory tree.
    Dir,
    /// A tar archive.
    Tar,
}

/// One input of a bundle.
#[derive(Clone, Debug)]
pub struct BundleInput {
    pub kind: InputKind,
    /// Where the directory or the archive is.
    pub location: String,
    /// For an archive: the directory within it that holds the files.
    pub root: Option<String>,
    /// The directory of the patches for this input.
    pub patch_dir: Option<String>,
    /// Ignore rules for this input, below the input's name.
    pub ignore: Option<Vec<String>>,
    /// Search patterns for this input, below the input's name.
    pub search_order: Option<Vec<String>>,
}

/// An input under its name.
#[derive(Clone, Debug)]
pub struct NamedInput {
    pub name: String,
    pub input: BundleInput,
}

/// The bundle's own record.
#[derive(Clone, Debug)]
pub struct BundleConfig {
    /// The bundle's name.
    pub name: String,
    /// The bundle digest that the content tree should have.
    pub expected_hash: String,
    /// Ignore rules for all inputs.
    pub ignore: Option<Vec<String>>,
    /// Search paths for this bundle.
    pub search_order: Vec<BundleSearchOrder>,
}

/// A bundle specification.
#[derive(Clone, Debug)]
pub struct BundleSpec {
    pub bundle: BundleConfig,
    /// The inputs, each under its name.
    pub inputs: Vec<NamedInput>,
}

/// Whether two strings hold the same text.
pub fn same_text(a: &str, b: &str) -> (r: bool)
    ensures
        r == (a@ == b@),
{
    let x = a.to_owned();
    let y = b.to_owned();
    x == y
}

/// The name of a bundle's container file: the bundle's name and `.ttb`.
pub open spec fn container_name(name: Seq<char>) -> Seq<char> {
    name + seq!['.', 't', 't', 'b']
}

impl BundleConfig {
    /// The name of the bundle's container file.
    pub fn target_name(&self) -> (r: String)
        ensures
            r@ == container_name(self.name@),
    {
        let mut r = self.name.clone();
        proof {
            reveal_strlit(".ttb");
            assert(".ttb"@ =~= seq!['.', 't', 't', 'b']);
        }
        r.append(".ttb");
        r
    }
}

impl BundleSpec {
    /// The place of the first input of this name, or the number of inputs.
    pub open spec fn input_index(&self, name: Seq<char>) -> int {
        crate::text::first_index(Seq::new(self.inputs@.len(), |i: int| self.inputs@[i].name@), name)
    }

    /// Whether the specification defines an input of this name.
    pub open spec fn defines(&self, name: Seq<char>) -> bool {
        exists|i: int| 0 <= i < self.inputs@.len() && self.inputs@[i].name@ == name
    }

    /// The input that entry `i` of the search order refers to, if it refers
    /// to one.
    pub open spec fn reference(&self, i: int) -> Option<Seq<char>> {
        match self.bundle.search_order@[i] {
            BundleSearchOrder::Plain(_) => None,
            BundleSearchOrder::Input { input } => Some(input@),
        }
    }

    /// Every input that the search order refers to is defined, and none is
    /// referred to twice.
    pub open spec fn valid(&self) -> bool {
        &&& forall|i: int|
            0 <= i < self.bundle.search_order@.len() && self.reference(i) is Some
                ==> self.defines(#[trigger] self.reference(i)->Some_0)
        &&& forall|i: int, j: int|
            0 <= i < j < self.bundle.search_order@.len() && self.reference(i) is Some
                ==> #[trigger] self.reference(i) != #[trigger] self.reference(j)
    }

    /// The place of the first input of this name.
    pub fn find_input(&self, name: &str) -> (r: Option<usize>)
        ensures
            r is Some <==> self.defines(name@),
            r is Some ==> r->Some_0 == self.input_index(name@) && r->Some_0 < self.inputs@.len()
                && self.inputs@[r->Some_0 as int].name@ == name@,
    {
        let ghost names = Seq::new(self.inputs@.len(), |i: int| self.inputs@[i].name@);
        let mut i: usize = 0;
        while i < self.inputs.len()
            invariant
                i <= self.inputs.len(),
                names == Seq::new(self.inputs@.len(), |i: int| self.inputs@[i].name@),
                forall|j: int| 0 <= j < i ==> self.inputs@[j].name@ != name@,
            decreases self.inputs.len() - i,
        {
            if same_text(self.inputs[i].name.as_str(), name) {
                proof {
                    crate::text::lemma_first_index_is(names, name@, i as int);
                }
                return Some(i);
            }
            i += 1;
        }
        None
    }

    /// Checks the specification; fails with `SpecInvalid` where the search
    /// order refers to an input that is not defined, or twice to one input.
    pub fn validate(&self) -> (r: Result<(), BuildError>)
        ensures
            r is Ok <==> self.valid(),
            r is Err ==> r == Err::<(), BuildError>(BuildError::SpecInvalid),
    {
        let order = &self.bundle.search_order;
        let mut i: usize = 0;
        while i < order.len()
            invariant
                i <= order.len(),
                order == &self.bundle.search_order,
                forall|k: int|
                    0 <= k < i && self.reference(k) is Some ==> self.defines(
                        #[trigger] self.reference(k)->Some_0,
                    ),
                forall|k: int, j: int|
                    0 <= k < j < order@.len() && k < i && self.reference(k) is Some
                        ==> #[trigger] self.reference(k) != #[trigger] self.reference(j),
            decreases order.len() - i,
        {
            match &order[i] {
                BundleSearchOrder::Plain(_) => {},
                BundleSearchOrder::Input { input } => {
                    assert(self.reference(i as int) == Some(input@));
                    if self.find_input(input.as_str()).is_none() {
                        return Err(BuildError::SpecInvalid);
                    }
                    let mut j: usize = i + 1;
                    while j < order.len()
                        invariant
                            i < j <= order.len(),
                            order == &self.bundle.search_order,
                            self.reference(i as int) == Some(input@),
                            forall|m: int|
                                i < m < j ==> self.reference(i as int) != #[trigger] self.reference(
                                    m,
                                ),
                        decreases order.len() - j,
                    {
                        match &order[j] {
                            BundleSearchOrder::Plain(_) => {},
                            BundleSearchOrder::Input { input: other } => {
                                if same_text(input.as_str(), other.as_str()) {
                                    assert(self.reference(i as int) == self.reference(j as int));
                                    return Err(BuildError::SpecInvalid);
                                }
                            },
                        }
                        j += 1;
                    }
                },
            }
            i += 1;
        }
        Ok(())
    }
}

} // verus!
