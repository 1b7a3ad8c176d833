//! The programs that the kernel can start, by name.
use vstd::prelude::*;
use crate::mm::image::{image_ok, ProgramImage};

verus! {

/// Name of the program that the init process runs.
pub open spec fn initproc_name() -> Seq<u8> {
    seq![
        0x63u8, 0x68u8, 0x36u8, 0x62u8, 0x5fu8, 0x69u8, 0x6eu8, 0x69u8, 0x74u8, 0x70u8, 0x72u8,
        0x6fu8, 0x63u8,
    ]
}

/// Name of the program that the init process runs: `ch6b_initproc`.
pub fn initproc_name_bytes() -> (name: Vec<u8>)
    ensures
        name@ == initproc_name(),
{
    let mut name: Vec<u8> = Vec::new();
    name.push(0x63);
    name.push(0x68);
    name.push(0x36);
    name.push(0x62);
    name.push(0x5f);
    name.push(0x69);
    name.push(0x6e);
    name.push(0x69);
    name.push(0x74);
    name.push(0x70);
    name.push(0x72);
    name.push(0x6f);
    name.push(0x63);
    proof {
        assert(name@ =~= initproc_name());
    }
    name
}

/// The index of the first of `names`, from index `k` on, that equals
/// `name`; the number of names when none does.
pub open spec fn first_named(names: Seq<Seq<u8>>, name: Seq<u8>, k: int) -> int
    decreases names.len() - k,
{
    if k < 0 || k >= names.len() {
        names.len() as int
    } else if names[k] == name {
        k
    } else {
        first_named(names, name, k + 1)
    }
}

/// The index that [`first_named`] gives lies at or after `k`, and names
/// an equal string when it is an index at all.
pub proof fn lemma_first_named(names: Seq<Seq<u8>>, name: Seq<u8>, k: int)
    requires
        0 <= k <= names.len(),
    ensures
        k <= first_named(names, name, k) <= names.len(),
        first_named(names, name, k) < names.len() ==> names[first_named(names, name, k)] == name,
        forall|j: int| k <= j < first_named(names, name, k) ==> names[j] != name,
    decreases names.len() - k,
{
    if k < names.len() && names[k] != name {
        lemma_first_named(names, name, k + 1);
    }
}

/// The table of program images.
pub struct ProgramTable {
    names: Vec<Vec<u8>>,
    images: Vec<Vec<u8>>,
}

/// Whether two byte strings are equal.
pub fn bytes_eq(a: &Vec<u8>, b: &Vec<u8>) -> (r: bool)
    ensures
        r == (a@ == b@),
{
    if a.len() != b.len() {
        return false;
    }
    let n = a.len();
    let mut i: usize = 0;
    while i < n
        invariant
            i <= n,
            n == a@.len(),
            n == b@.len(),
            forall|j: int| 0 <= j < i ==> a@[j] == b@[j],
        decreases n - i,
    {
        if a[i] != b[i] {
            return false;
        }
        i += 1;
    }
    assert(a@ =~= b@);
    true
}

impl ProgramTable {
    /// The names, in the order in which the programs were added.
    pub closed spec fn names(&self) -> Seq<Seq<u8>> {
        self.names@.map_values(|n: Vec<u8>| n@)
    }

    /// The images, in the order in which the programs were added.
    pub closed spec fn images(&self) -> Seq<Seq<u8>> {
        self.images@.map_values(|n: Vec<u8>| n@)
    }

    /// Every program has a name and an image that can be loaded.
    pub closed spec fn wf(&self) -> bool {
        &&& self.names@.len() == self.images@.len()
        &&& forall|i: int| 0 <= i < self.images@.len() ==> image_ok(#[trigger] self.images@[i]@)
    }

    /// The image of the program called `name`: that of the first program
    /// added under the name, `None` when there is none.
    pub open spec fn lookup(&self, name: Seq<u8>) -> Option<Seq<u8>> {
        let i = first_named(self.names(), name, 0);
        if i < self.names().len() {
            Some(self.images()[i])
        } else {
            None
        }
    }

    /// A table without programs: it holds no name and no image, so that
    /// no name is found in it.
    pub fn new() -> (t: ProgramTable)
        ensures
            t.wf(),
            t.names() == Seq::<Seq<u8>>::empty(),
            t.images() == Seq::<Seq<u8>>::empty(),
            forall|name: Seq<u8>| t.lookup(name) is None,
    {
        let t = ProgramTable { names: Vec::new(), images: Vec::new() };
        assert(t.names() =~= Seq::<Seq<u8>>::empty());
        assert(t.images() =~= Seq::<Seq<u8>>::empty());
        t
    }

    /// Adds the program `image` under the name `name`. Returns `false`, and
    /// changes nothing, exactly when the image cannot be loaded.
    pub fn add(&mut self, name: Vec<u8>, image: Vec<u8>) -> (r: bool)
        requires
            old(self).wf(),
        ensures
            final(self).wf(),
            r == image_ok(image@),
            !r ==> *final(self) == *old(self),
            r ==> final(self).names() == old(self).names().push(name@) && final(self).images()
                == old(self).images().push(image@),
    {
        if ProgramImage::parse(&image).is_none() {
            return false;
        }
        self.names.push(name);
        self.images.push(image);
        proof {
            assert(self.names() =~= old(self).names().push(name@));
            assert(self.images() =~= old(self).images().push(image@));
            assert forall|i: int| 0 <= i < self.images@.len() implies image_ok(
                #[trigger] self.images@[i]@,
            ) by {
                if i < old(self).images@.len() {
                    assert(self.images@[i] == old(self).images@[i]);
                }
            }
        }
        true
    }

    /// The image of the program called `name`.
    pub fn get_app_data_by_name(&self, name: &Vec<u8>) -> (r: Option<&Vec<u8>>)
        requires
            self.wf(),
        ensures
            match r {
                None => self.lookup(name@) is None,
                Some(image) => self.lookup(name@) == Some(image@) && image_ok(image@),
            },
    {
        let n = self.names.len();
        let mut k: usize = 0;
        while k < n
            invariant
                k <= n,
                n == self.names@.len(),
                self.wf(),
                first_named(self.names(), name@, 0) == first_named(self.names(), name@, k as int),
            decreases n - k,
        {
            assert(self.names()[k as int] == self.names@[k as int]@);
            if bytes_eq(&self.names[k], name) {
                assert(self.images()[k as int] == self.images@[k as int]@);
                return Some(&self.images[k]);
            }
            k += 1;
        }
        None
    }
}

} // verus!
