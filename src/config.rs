use vstd::prelude::*;

verus! {

/// Abstract state of a [`Config`].
pub ghost struct ConfigView {
    pub input_len: nat,
    pub output_len: nat,
    pub pop_size: nat,
    pub comp_thresh: u32,
    pub c1: u32,
    pub c2: u32,
    pub c3: u32,
}

/// The settings shared by a population: the arity of every genome, the
/// population size, and the speciation threshold and distance coefficients
/// (bit patterns of single-precision values).
#[derive(Clone, Copy, Debug)]
pub struct Config {
    input_len: usize,
    output_len: usize,
    pop_size: usize,
    comp_thresh: u32,
    c1: u32,
    c2: u32,
    c3: u32,
}

impl View for Config {
    type V = ConfigView;

    closed spec fn view(&self) -> ConfigView {
        ConfigView {
            input_len: self.input_len as nat,
            output_len: self.output_len as nat,
            pop_size: self.pop_size as nat,
            comp_thresh: self.comp_thresh,
            c1: self.c1,
            c2: self.c2,
            c3: self.c3,
        }
    }
}

impl Config {
    /// The arities and the population size are positive; node identities
    /// are 32-bit, so inputs and outputs together fit in one.
    pub open spec fn wf(&self) -> bool {
        &&& self@.input_len > 0
        &&& self@.output_len > 0
        &&& self@.pop_size > 0
        &&& self@.input_len + self@.output_len <= u32::MAX
    }

    pub fn new(
        input_len: usize,
        output_len: usize,
        pop_size: usize,
        comp_thresh: u32,
        c1: u32,
        c2: u32,
        c3: u32,
    ) -> (r: Config)
        requires
            input_len > 0,
            output_len > 0,
            pop_size > 0,
            input_len + output_len <= u32::MAX,
        ensures
            r.wf(),
            r@ == (ConfigView {
                input_len: input_len as nat,
                output_len: output_len as nat,
                pop_size: pop_size as nat,
                comp_thresh,
                c1,
                c2,
                c3,
            }),
    {
        Config { input_len, output_len, pop_size, comp_thresh, c1, c2, c3 }
    }

    pub fn input_len(&self) -> (r: usize)
        ensures
            r == self@.input_len,
    {
        self.input_len
    }

    pub fn output_len(&self) -> (r: usize)
        ensures
            r == self@.output_len,
    {
        self.output_len
    }

    pub fn pop_size(&self) -> (r: usize)
        ensures
            r == self@.pop_size,
    {
        self.pop_size
    }

    pub fn comp_thresh(&self) -> (r: u32)
        ensures
            r == self@.comp_thresh,
    {
        self.comp_thresh
    }

    pub fn c1(&self) -> (r: u32)
        ensures
            r == self@.c1,
    {
        self.c1
    }

    pub fn c2(&self) -> (r: u32)
        ensures
            r == self@.c2,
    {
        self.c2
    }

    pub fn c3(&self) -> (r: u32)
        ensures
            r == self@.c3,
    {
        self.c3
    }
}

} // verus!
