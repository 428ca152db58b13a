//! The constants of a frame as a shader reads them: twelve 32-bit words.
//!
//! Coordinates are bit patterns of singles.

use vstd::prelude::*;

verus! {

/// The four bytes of a word, the lowest first.
pub open spec fn little_bytes(w: u32) -> Seq<u8> {
    seq![
        (w % 256) as u8,
        (w / 256 % 256) as u8,
        (w / 65536 % 256) as u8,
        (w / 16777216) as u8,
    ]
}

/// The four bytes of a word, the highest first.
pub open spec fn big_bytes(w: u32) -> Seq<u8> {
    seq![
        (w / 16777216) as u8,
        (w / 65536 % 256) as u8,
        (w / 256 % 256) as u8,
        (w % 256) as u8,
    ]
}

/// The bytes of a sequence of words, each with the lowest byte first (`little`)
/// or each with the highest first.
pub open spec fn lie_as(bytes: Seq<u8>, words: Seq<u32>, little: bool) -> bool {
    &&& bytes.len() == 4 * words.len()
    &&& forall|i: int|
        #![trigger words[i]]
        0 <= i < words.len() ==> bytes.subrange(4 * i, 4 * i + 4) == (if little {
            little_bytes(words[i])
        } else {
            big_bytes(words[i])
        })
}

/// The bytes of a sequence of words, in one of the two orders.
pub open spec fn are_bytes_of(bytes: Seq<u8>, words: Seq<u32>) -> bool {
    lie_as(bytes, words, true) || lie_as(bytes, words, false)
}

/// The bytes of a sequence of words as they lie in memory.
///
/// Calls `bytemuck::cast_slice` from words to bytes. Trusted: there are four
/// bytes for each word, in the order of the words, and either every word has its
/// lowest byte first or every word has its highest byte first. Which of the two
/// depends on the machine and is not stated.
#[verifier::external_body]
pub(crate) fn words_to_bytes(words: &Vec<u32>) -> (bytes: Vec<u8>)
    ensures
        are_bytes_of(bytes@, words@),
{
    bytemuck::cast_slice::<u32, u8>(words.as_slice()).to_vec()
}

/// The bytes that are written into a buffer of a device for a sequence of words,
/// such as the numbers of a batch of tiles.
pub fn buffer_bytes(words: &Vec<u32>) -> (bytes: Vec<u8>)
    ensures
        are_bytes_of(bytes@, words@),
{
    words_to_bytes(words)
}

/// The words whose bytes lie in memory as `bytes`.
///
/// Calls `bytemuck::pod_collect_to_vec` from bytes to words. Trusted: four bytes
/// make one word, in the order of the bytes, and either every word has its lowest
/// byte first or every word has its highest byte first. Which of the two depends
/// on the machine and is not stated.
#[verifier::external_body]
pub(crate) fn bytes_to_words(bytes: &Vec<u8>) -> (words: Vec<u32>)
    requires
        bytes@.len() % 4 == 0,
    ensures
        are_bytes_of(bytes@, words@),
{
    bytemuck::pod_collect_to_vec::<u8, u32>(bytes.as_slice())
}

/// The values of a frame that was read back from a buffer of a device.
pub fn frame_words(bytes: &Vec<u8>) -> (words: Vec<u32>)
    requires
        bytes@.len() % 4 == 0,
    ensures
        are_bytes_of(bytes@, words@),
        words@.len() == bytes@.len() / 4,
{
    bytes_to_words(bytes)
}

/// The constants of a frame that is computed pixel by pixel.
#[derive(Clone, Copy, Debug)]
pub struct Uniforms {
    pub re_start: u32,
    pub im_start: u32,
    pub re_step: u32,
    pub im_step: u32,
    pub julia_cr: u32,
    pub julia_ci: u32,
    pub max_iter: u32,
    pub fractal: u32,
    pub width: u32,
    pub height: u32,
}

impl Uniforms {
    /// The words in the order in which the shader declares them, filled up to a
    /// multiple of four.
    pub open spec fn layout(self) -> Seq<u32> {
        seq![
            self.re_start,
            self.im_start,
            self.re_step,
            self.im_step,
            self.julia_cr,
            self.julia_ci,
            self.max_iter,
            self.fractal,
            self.width,
            self.height,
            0,
            0,
        ]
    }

    /// The words in the order in which the shader declares them.
    pub fn words(&self) -> (r: Vec<u32>)
        ensures
            r@ == self.layout(),
    {
        vec![
            self.re_start,
            self.im_start,
            self.re_step,
            self.im_step,
            self.julia_cr,
            self.julia_ci,
            self.max_iter,
            self.fractal,
            self.width,
            self.height,
            0u32,
            0u32,
        ]
    }

    /// The bytes that are written into the shader's uniform buffer.
    pub fn bytes(&self) -> (r: Vec<u8>)
        ensures
            are_bytes_of(r@, self.layout()),
            r@.len() == 48,
    {
        words_to_bytes(&self.words())
    }
}

/// The constants of a frame that is followed against a reference orbit.
#[derive(Clone, Copy, Debug)]
pub struct PerturbUniforms {
    pub re_start: u32,
    pub im_start: u32,
    pub re_step: u32,
    pub im_step: u32,
    pub ref_re: u32,
    pub ref_im: u32,
    pub orbit_len: u32,
    pub max_iter: u32,
    pub width: u32,
    pub height: u32,
}

impl PerturbUniforms {
    /// The words in the order in which the shader declares them, filled up to a
    /// multiple of four.
    pub open spec fn layout(self) -> Seq<u32> {
        seq![
            self.re_start,
            self.im_start,
            self.re_step,
            self.im_step,
            self.ref_re,
            self.ref_im,
            self.orbit_len,
            self.max_iter,
            self.width,
            self.height,
            0,
            0,
        ]
    }

    /// The words in the order in which the shader declares them.
    pub fn words(&self) -> (r: Vec<u32>)
        ensures
            r@ == self.layout(),
    {
        vec![
            self.re_start,
            self.im_start,
            self.re_step,
            self.im_step,
            self.ref_re,
            self.ref_im,
            self.orbit_len,
            self.max_iter,
            self.width,
            self.height,
            0u32,
            0u32,
        ]
    }

    /// The bytes that are written into the shader's uniform buffer.
    pub fn bytes(&self) -> (r: Vec<u8>)
        ensures
            are_bytes_of(r@, self.layout()),
            r@.len() == 48,
    {
        words_to_bytes(&self.words())
    }
}

proof fn lemma_bytes_keep_word(a: u32, b: u32)
    ensures
        little_bytes(a) == little_bytes(b) ==> a == b,
        big_bytes(a) == big_bytes(b) ==> a == b,
{
    if little_bytes(a) == little_bytes(b) {
        assert(little_bytes(a)[0] == little_bytes(b)[0]);
        assert(little_bytes(a)[1] == little_bytes(b)[1]);
        assert(little_bytes(a)[2] == little_bytes(b)[2]);
        assert(little_bytes(a)[3] == little_bytes(b)[3]);
    }
    if big_bytes(a) == big_bytes(b) {
        assert(big_bytes(a)[0] == big_bytes(b)[0]);
        assert(big_bytes(a)[1] == big_bytes(b)[1]);
        assert(big_bytes(a)[2] == big_bytes(b)[2]);
        assert(big_bytes(a)[3] == big_bytes(b)[3]);
    }
}

/// No word is lost on the way into a buffer: on one machine, the same bytes come
/// of the same words only.
pub proof fn law_bytes_keep_every_word(bytes: Seq<u8>, a: Seq<u32>, b: Seq<u32>, little: bool)
    requires
        lie_as(bytes, a, little),
        lie_as(bytes, b, little),
    ensures
        a == b,
{
    assert forall|i: int| 0 <= i < a.len() implies #[trigger] a[i] == b[i] by {
        lemma_bytes_keep_word(a[i], b[i]);
    }
    assert(a =~= b);
}

/// No constant is lost on the way to the shader: on one machine, the same bytes
/// come of the same constants only.
pub proof fn law_bytes_keep_every_constant(bytes: Seq<u8>, a: Uniforms, b: Uniforms, little: bool)
    requires
        lie_as(bytes, a.layout(), little),
        lie_as(bytes, b.layout(), little),
    ensures
        a == b,
{
    law_bytes_keep_every_word(bytes, a.layout(), b.layout(), little);
    assert(a.layout()[0] == b.layout()[0]);
    assert(a.layout()[1] == b.layout()[1]);
    assert(a.layout()[2] == b.layout()[2]);
    assert(a.layout()[3] == b.layout()[3]);
    assert(a.layout()[4] == b.layout()[4]);
    assert(a.layout()[5] == b.layout()[5]);
    assert(a.layout()[6] == b.layout()[6]);
    assert(a.layout()[7] == b.layout()[7]);
    assert(a.layout()[8] == b.layout()[8]);
    assert(a.layout()[9] == b.layout()[9]);
}

/// As [`law_bytes_keep_every_constant`], for a frame that is followed against a
/// reference orbit.
pub proof fn law_bytes_keep_every_orbit_constant(
    bytes: Seq<u8>,
    a: PerturbUniforms,
    b: PerturbUniforms,
    little: bool,
)
    requires
        lie_as(bytes, a.layout(), little),
        lie_as(bytes, b.layout(), little),
    ensures
        a == b,
{
    law_bytes_keep_every_word(bytes, a.layout(), b.layout(), little);
    assert(a.layout()[0] == b.layout()[0]);
    assert(a.layout()[1] == b.layout()[1]);
    assert(a.layout()[2] == b.layout()[2]);
    assert(a.layout()[3] == b.layout()[3]);
    assert(a.layout()[4] == b.layout()[4]);
    assert(a.layout()[5] == b.layout()[5]);
    assert(a.layout()[6] == b.layout()[6]);
    assert(a.layout()[7] == b.layout()[7]);
    assert(a.layout()[8] == b.layout()[8]);
    assert(a.layout()[9] == b.layout()[9]);
}

/// Where the shader finds each constant: the corner and the step of the frame, the
/// Julia constant, the limit, the fractal and the size, and zeros behind.
pub proof fn law_constants_lie_where_the_shader_looks(u: Uniforms, p: PerturbUniforms)
    ensures
        u.layout().len() == 12 && p.layout().len() == 12,
        u.layout()[0] == u.re_start && p.layout()[0] == p.re_start,
        u.layout()[1] == u.im_start && p.layout()[1] == p.im_start,
        u.layout()[2] == u.re_step && p.layout()[2] == p.re_step,
        u.layout()[3] == u.im_step && p.layout()[3] == p.im_step,
        u.layout()[4] == u.julia_cr && p.layout()[4] == p.ref_re,
        u.layout()[5] == u.julia_ci && p.layout()[5] == p.ref_im,
        u.layout()[6] == u.max_iter && p.layout()[6] == p.orbit_len,
        u.layout()[7] == u.fractal && p.layout()[7] == p.max_iter,
        u.layout()[8] == u.width && p.layout()[8] == p.width,
        u.layout()[9] == u.height && p.layout()[9] == p.height,
        u.layout()[10] == 0 && u.layout()[11] == 0,
        p.layout()[10] == 0 && p.layout()[11] == 0,
{
}

/// The bytes of a word are its digits to the base 256, from the lowest on or from the
/// highest on.
pub proof fn law_bytes_are_the_digits_of_a_word(w: u32)
    ensures
        ({
            let b = little_bytes(w);
            &&& b.len() == 4
            &&& w == b[0] + 0x100 * b[1] + 0x1_0000 * b[2] + 0x100_0000 * b[3]
            &&& big_bytes(w) == b.reverse()
        }),
{
    assert(big_bytes(w) =~= little_bytes(w).reverse());
}

} // verus!
