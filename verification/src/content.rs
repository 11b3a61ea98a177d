//! Content hashes of build resources: each resource writes the parts of it
//! that are its content as tagged, length-framed bytes, and its SHA-512 is
//! taken over its API version, kind and content. Labels select resources
//! and are not content.
use crate::sha::{sha512_digest, sha512_of, ShaSum};
use crate::strmap::StrMap;
use crate::text::{chars_of, is_digit, is_lower, owned};
use vstd::prelude::*;
use vstd::string::StringSliceAdditionalSpecFns;

verus! {

/// `256^k`.
pub open spec fn pow256(k: nat) -> nat
    decreases k,
{
    if k == 0 {
        1
    } else {
        256 * pow256((k - 1) as nat)
    }
}

/// The eight bytes of `n`, most significant first.
pub open spec fn be64(n: nat) -> Seq<u8> {
    Seq::new(8, |i: int| ((n / pow256((7 - i) as nat)) % 256) as u8)
}

/// A tagged value: the tag, the value's length as eight bytes, the value.
pub open spec fn framed(tag: Seq<char>, value: Seq<u8>) -> Seq<u8> {
    vstd::utf8::encode_utf8(tag) + be64(value.len()) + value
}

/// A field name.
pub open spec fn field(name: Seq<char>) -> Seq<u8> {
    framed("field"@, vstd::utf8::encode_utf8(name))
}

/// A text value.
pub open spec fn text(value: Seq<char>) -> Seq<u8> {
    framed("str"@, vstd::utf8::encode_utf8(value))
}

proof fn lemma_pow256_positive(k: nat)
    ensures
        pow256(k) >= 1,
    decreases k,
{
    if k > 0 {
        lemma_pow256_positive((k - 1) as nat);
    }
}

/// `n / 256^k` is `256` times `n / 256^(k+1)`, plus byte `7 - k` of `n`.
proof fn lemma_be64_step(n: nat, k: nat)
    requires
        k < 8,
    ensures
        n / pow256(k) == 256 * (n / pow256(k + 1)) + (n / pow256(k)) % 256,
        be64(n)[7 - k] as int == (n / pow256(k)) % 256,
{
    lemma_pow256_positive(k);
    assert(pow256(k + 1) == 256 * pow256(k));
    vstd::arithmetic::div_mod::lemma_div_denominator(n as int, pow256(k) as int, 256);
    assert(pow256(k) * 256 == pow256(k + 1)) by (nonlinear_arith)
        requires
            pow256(k + 1) == 256 * pow256(k),
    ;
    vstd::arithmetic::div_mod::lemma_fundamental_div_mod((n / pow256(k)) as int, 256);
}

/// Eight bytes name one number below `256^8`.
pub proof fn lemma_be64_injective(n: nat, m: nat)
    requires
        n < pow256(8),
        m < pow256(8),
        be64(n) == be64(m),
    ensures
        n == m,
{
    lemma_pow256_positive(8);
    vstd::arithmetic::div_mod::lemma_basic_div(n as int, pow256(8) as int);
    vstd::arithmetic::div_mod::lemma_basic_div(m as int, pow256(8) as int);
    lemma_be64_down(n, m, 8);
    assert(pow256(0) == 1);
}

proof fn lemma_be64_down(n: nat, m: nat, k: nat)
    requires
        k <= 8,
        be64(n) == be64(m),
        n / pow256(k) == m / pow256(k),
    ensures
        n / pow256(0) == m / pow256(0),
    decreases k,
{
    if k > 0 {
        let j = (k - 1) as nat;
        lemma_be64_step(n, j);
        lemma_be64_step(m, j);
        assert(be64(n)[7 - j] == be64(m)[7 - j]);
        lemma_be64_down(n, m, j);
    }
}

/// Appends the eight bytes of `n`.
pub fn write_len(out: &mut Vec<u8>, n: u64)
    ensures
        final(out)@ == old(out)@ + be64(n as nat),
{
    let ghost start = out@;
    let mut d: u64 = 72057594037927936;
    let mut i: usize = 0;
    proof {
        reveal_with_fuel(pow256, 8);
    }
    while i < 8
        invariant
            i <= 8,
            i < 8 ==> d == pow256((7 - i) as nat),
            out@ == start + be64(n as nat).take(i as int),
        decreases 8 - i,
    {
        proof {
            lemma_pow256_positive((7 - i) as nat);
        }
        let byte = ((n / d) % 256) as u8;
        out.push(byte);
        proof {
            assert(out@ =~= start + be64(n as nat).take(i + 1));
        }
        if i < 7 {
            proof {
                assert(pow256((7 - i) as nat) == 256 * pow256((7 - i - 1) as nat));
            }
            d = d / 256;
        }
        i = i + 1;
    }
    proof {
        assert(be64(n as nat).take(8) =~= be64(n as nat));
    }
}

/// Appends the bytes of `s`.
pub fn write_bytes(out: &mut Vec<u8>, s: &[u8])
    ensures
        final(out)@ == old(out)@ + s@,
{
    let ghost start = out@;
    let mut i: usize = 0;
    while i < s.len()
        invariant
            i <= s@.len(),
            out@ == start + s@.take(i as int),
        decreases s@.len() - i,
    {
        out.push(s[i]);
        proof {
            assert(out@ =~= start + s@.take(i + 1));
        }
        i = i + 1;
    }
    proof {
        assert(s@.take(i as int) =~= s@);
    }
}

/// Appends a tagged value.
pub fn write_framed(out: &mut Vec<u8>, tag: &str, value: &[u8])
    ensures
        final(out)@ == old(out)@ + framed(tag@, value@),
{
    let ghost start = out@;
    write_bytes(out, tag.as_bytes());
    let n = value.len();
    write_len(out, n as u64);
    write_bytes(out, value);
    proof {
        assert(out@ =~= start + framed(tag@, value@));
    }
}

/// Appends a field name.
pub fn write_field(out: &mut Vec<u8>, name: &str)
    ensures
        final(out)@ == old(out)@ + field(name@),
{
    write_framed(out, "field", name.as_bytes());
}

/// Appends a text value.
pub fn write_text(out: &mut Vec<u8>, value: &str)
    ensures
        final(out)@ == old(out)@ + text(value@),
{
    write_framed(out, "str", value.as_bytes());
}

/// Something that writes its content for hashing.
pub trait HashContent {
    /// The bytes of its content.
    spec fn content(&self) -> Seq<u8>;

    fn hash_content(&self, out: &mut Vec<u8>)
        ensures
            final(out)@ == old(out)@ + self.content(),
    ;
}

impl HashContent for String {
    open spec fn content(&self) -> Seq<u8> {
        text(self@)
    }

    fn hash_content(&self, out: &mut Vec<u8>) {
        write_text(out, self.as_str());
    }
}

impl HashContent for ShaSum {
    open spec fn content(&self) -> Seq<u8> {
        framed("sha512"@, self.0@)
    }

    fn hash_content(&self, out: &mut Vec<u8>) {
        write_framed(out, "sha512", self.as_bytes());
    }
}

/// The content of the items of a list, one after another.
pub open spec fn items_content<T: HashContent>(items: Seq<T>) -> Seq<u8>
    decreases items.len(),
{
    if items.len() == 0 {
        Seq::empty()
    } else {
        items_content(items.drop_last()) + items.last().content()
    }
}

impl<T: HashContent> HashContent for Vec<T> {
    open spec fn content(&self) -> Seq<u8> {
        be64(self@.len()) + items_content(self@)
    }

    fn hash_content(&self, out: &mut Vec<u8>) {
        let ghost start = out@;
        write_len(out, self.len() as u64);
        let mut i: usize = 0;
        while i < self.len()
            invariant
                i <= self@.len(),
                out@ == start + be64(self@.len()) + items_content(self@.take(i as int)),
            decreases self@.len() - i,
        {
            proof {
                assert(self@.take(i + 1).drop_last() =~= self@.take(i as int));
            }
            self[i].hash_content(out);
            i = i + 1;
        }
        proof {
            assert(self@.take(i as int) =~= self@);
        }
    }
}

/// A map of labels, in key order.
pub type LabelMap = StrMap<String>;

/// The content of the entries of a map, one after another: each key as
/// text, then its value.
pub open spec fn entries_content<E: HashContent>(keys: Seq<Seq<char>>, values: Seq<E>) -> Seq<u8>
    decreases keys.len(),
{
    if keys.len() == 0 || values.len() == 0 {
        Seq::empty()
    } else {
        entries_content(keys.drop_last(), values.drop_last()) + text(keys.last()) + values.last().content()
    }
}

impl<E: HashContent + DeepView> HashContent for StrMap<E> {
    open spec fn content(&self) -> Seq<u8> {
        be64(self.keys().len()) + entries_content(self.keys(), self.values())
    }

    fn hash_content(&self, out: &mut Vec<u8>) {
        let ghost start = out@;
        let entries = self.entries();
        proof {
            self.lemma_shape();
        }
        write_len(out, entries.len() as u64);
        let mut i: usize = 0;
        while i < entries.len()
            invariant
                i <= entries@.len() == self.keys().len() == self.values().len(),
                forall|k: int|
                    0 <= k < entries@.len() ==> (#[trigger] entries@[k]).0@ == self.keys()[k] && entries@[k].1
                        == self.values()[k],
                out@ == start + be64(self.keys().len()) + entries_content(
                    self.keys().take(i as int),
                    self.values().take(i as int),
                ),
            decreases entries@.len() - i,
        {
            proof {
                assert(self.keys().take(i + 1).drop_last() =~= self.keys().take(i as int));
                assert(self.values().take(i + 1).drop_last() =~= self.values().take(i as int));
            }
            write_text(out, entries[i].0.as_str());
            entries[i].1.hash_content(out);
            i = i + 1;
        }
        proof {
            assert(self.keys().take(i as int) =~= self.keys());
            assert(self.values().take(i as int) =~= self.values());
        }
    }
}

/// The transformation an act performs.
#[derive(Debug, Clone, Copy, PartialEq, Eq, Structural)]
pub enum ActMap {
    /// Pass the inputs through unchanged.
    Identity,
    /// Run a shell script over the inputs.
    Run,
    /// Compress each input with zstd.
    Zstd,
    /// Fetch each input from an HTTP endpoint.
    Http,
}

impl ActMap {
    pub open spec fn name_spec(&self) -> Seq<char> {
        match self {
            ActMap::Identity => "identity"@,
            ActMap::Run => "run"@,
            ActMap::Zstd => "zstd"@,
            ActMap::Http => "http"@,
        }
    }

    /// The name under which the transformation is hashed.
    pub fn name(&self) -> (r: &'static str)
        ensures
            r@ == self.name_spec(),
    {
        match self {
            ActMap::Identity => "identity",
            ActMap::Run => "run",
            ActMap::Zstd => "zstd",
            ActMap::Http => "http",
        }
    }
}

impl HashContent for ActMap {
    open spec fn content(&self) -> Seq<u8> {
        text(self.name_spec())
    }

    fn hash_content(&self, out: &mut Vec<u8>) {
        write_text(out, self.name());
    }
}

/// An input an act consumes.
#[derive(Debug, Clone)]
pub enum Input<E> {
    /// Fetch the input from an HTTP URL expression.
    Http { url: E },
}

impl<E: HashContent> HashContent for Input<E> {
    open spec fn content(&self) -> Seq<u8> {
        match self {
            Input::Http { url } => text("http"@) + field("url"@) + url.content(),
        }
    }

    fn hash_content(&self, out: &mut Vec<u8>) {
        match self {
            Input::Http { url } => {
                write_text(out, "http");
                write_field(out, "url");
                url.hash_content(out);
            },
        }
    }
}

/// An output an act declares; no kind of output carries anything yet, so
/// an output's content is empty.
#[derive(Debug, Clone, Copy)]
pub struct Output;

impl HashContent for Output {
    open spec fn content(&self) -> Seq<u8> {
        Seq::empty()
    }

    fn hash_content(&self, out: &mut Vec<u8>) {
        proof {
            assert(old(out)@ + Seq::<u8>::empty() =~= old(out)@);
        }
    }
}

/// A label selector for an act.
#[derive(Debug, Clone)]
pub struct ActRef(pub LabelMap);

impl HashContent for ActRef {
    open spec fn content(&self) -> Seq<u8> {
        self.0.content()
    }

    fn hash_content(&self, out: &mut Vec<u8>) {
        self.0.hash_content(out);
    }
}

/// A reusable build action: inputs, a transformation, a matrix and outputs.
/// Its labels are found by builds, and are no part of its content.
#[derive(Debug, Clone)]
pub struct Act<E> {
    pub labels: LabelMap,
    pub inputs: Vec<Input<E>>,
    pub map: ActMap,
    pub matrix: StrMap<Vec<String>>,
    pub outputs: Vec<Output>,
}

impl<E: HashContent> HashContent for Act<E> {
    open spec fn content(&self) -> Seq<u8> {
        field("inputs"@) + self.inputs.content() + field("map"@) + self.map.content() + field("matrix"@)
            + self.matrix.content() + field("outputs"@) + self.outputs.content()
    }

    fn hash_content(&self, out: &mut Vec<u8>) {
        write_field(out, "inputs");
        self.inputs.hash_content(out);
        write_field(out, "map");
        self.map.hash_content(out);
        write_field(out, "matrix");
        self.matrix.hash_content(out);
        write_field(out, "outputs");
        self.outputs.hash_content(out);
        proof {
            assert(out@ =~= old(out)@ + self.content());
        }
    }
}

/// A build step: an act chosen by labels, the values bound for it, and the
/// steps it needs.
#[derive(Debug, Clone)]
pub struct Step<E> {
    pub id: String,
    pub act: ActRef,
    pub with: StrMap<E>,
    pub needs: Vec<String>,
}

impl<E: HashContent + DeepView> HashContent for Step<E> {
    open spec fn content(&self) -> Seq<u8> {
        field("id"@) + self.id.content() + field("act"@) + self.act.content() + field("with"@) + self.with.content()
            + field("needs"@) + self.needs.content()
    }

    fn hash_content(&self, out: &mut Vec<u8>) {
        write_field(out, "id");
        self.id.hash_content(out);
        write_field(out, "act");
        self.act.hash_content(out);
        write_field(out, "with");
        self.with.hash_content(out);
        write_field(out, "needs");
        self.needs.hash_content(out);
        proof {
            assert(out@ =~= old(out)@ + self.content());
        }
    }
}

/// A package, known by its labels alone: its content is empty.
#[derive(Debug, Clone)]
pub struct Package {
    pub labels: LabelMap,
}

impl HashContent for Package {
    open spec fn content(&self) -> Seq<u8> {
        Seq::empty()
    }

    fn hash_content(&self, out: &mut Vec<u8>) {
        proof {
            assert(old(out)@ + Seq::<u8>::empty() =~= old(out)@);
        }
    }
}

/// A package installation: selectors a package must match and selectors
/// that raise its priority, both content.
#[derive(Debug, Clone)]
pub struct Install {
    pub must: Vec<LabelMap>,
    pub prefer: Vec<LabelMap>,
}

impl HashContent for Install {
    open spec fn content(&self) -> Seq<u8> {
        field("must"@) + self.must.content() + field("prefer"@) + self.prefer.content()
    }

    fn hash_content(&self, out: &mut Vec<u8>) {
        write_field(out, "must");
        self.must.hash_content(out);
        write_field(out, "prefer");
        self.prefer.hash_content(out);
        proof {
            assert(out@ =~= old(out)@ + self.content());
        }
    }
}

/// A text whose UTF-8 bytes can be counted in eight bytes.
pub open spec fn text_fits(t: Seq<char>) -> bool {
    vstd::utf8::encode_utf8(t).len() < pow256(8)
}

/// A label map whose size and texts can be counted in eight bytes.
pub open spec fn label_map_fits(m: LabelMap) -> bool {
    &&& m.keys().len() < pow256(8)
    &&& forall|i: int| 0 <= i < m.keys().len() ==> text_fits(#[trigger] m.keys()[i]) && text_fits(m.values()[i]@)
}

/// A list of label maps that can be counted in eight bytes.
pub open spec fn selectors_fit(ms: Seq<LabelMap>) -> bool {
    &&& ms.len() < pow256(8)
    &&& forall|i: int| 0 <= i < ms.len() ==> label_map_fits(#[trigger] ms[i])
}

/// A label map as its keys and values, in key order.
pub open spec fn label_map_view(m: LabelMap) -> (Seq<Seq<char>>, Seq<Seq<char>>) {
    (m.keys(), m.values().map_values(|v: String| v@))
}

/// A list of label maps, each as its keys and values.
pub open spec fn selectors_view(ms: Seq<LabelMap>) -> Seq<(Seq<Seq<char>>, Seq<Seq<char>>)> {
    ms.map_values(|m: LabelMap| label_map_view(m))
}

/// The `must` and `prefer` selectors of an Install are part of its
/// content: Installs with the same content have the same selectors, so
/// Installs whose selectors differ have different content.
pub proof fn lemma_install_selectors_in_content(a: &Install, b: &Install)
    requires
        selectors_fit(a.must@),
        selectors_fit(a.prefer@),
        selectors_fit(b.must@),
        selectors_fit(b.prefer@),
        a.content() == b.content(),
    ensures
        selectors_view(a.must@) == selectors_view(b.must@),
        selectors_view(a.prefer@) == selectors_view(b.prefer@),
{
    let fm = field("must"@);
    let fp = field("prefer"@);
    let x = a.content();
    assert(x =~= fm + (a.must.content() + (fp + a.prefer.content())));
    assert(x =~= fm + (b.must.content() + (fp + b.prefer.content())));
    assert(x.skip(fm.len() as int) =~= a.must.content() + (fp + a.prefer.content()));
    assert(x.skip(fm.len() as int) =~= b.must.content() + (fp + b.prefer.content()));
    lemma_selectors_parse(a.must, b.must, fp + a.prefer.content(), fp + b.prefer.content());
    let y = fp + a.prefer.content();
    assert(y.skip(fp.len() as int) =~= a.prefer.content() + Seq::<u8>::empty());
    assert((fp + b.prefer.content()).skip(fp.len() as int) =~= b.prefer.content() + Seq::<u8>::empty());
    lemma_selectors_parse(a.prefer, b.prefer, Seq::<u8>::empty(), Seq::<u8>::empty());
}

/// A framed value is read back whole from the front of the bytes.
proof fn lemma_framed_parse(tag: Seq<char>, u1: Seq<u8>, u2: Seq<u8>, r1: Seq<u8>, r2: Seq<u8>)
    requires
        framed(tag, u1) + r1 == framed(tag, u2) + r2,
        u1.len() < pow256(8),
        u2.len() < pow256(8),
    ensures
        u1 == u2,
        r1 == r2,
{
    let e = vstd::utf8::encode_utf8(tag);
    let x = framed(tag, u1) + r1;
    let n = e.len() as int;
    assert(x.subrange(n, n + 8) =~= be64(u1.len()));
    assert((framed(tag, u2) + r2).subrange(n, n + 8) =~= be64(u2.len()));
    lemma_be64_injective(u1.len(), u2.len());
    let l = u1.len() as int;
    assert(x.subrange(n + 8, n + 8 + l) =~= u1);
    assert((framed(tag, u2) + r2).subrange(n + 8, n + 8 + l) =~= u2);
    assert(x.skip(n + 8 + l) =~= r1);
    assert((framed(tag, u2) + r2).skip(n + 8 + l) =~= r2);
}

/// A text is read back whole from the front of the bytes.
proof fn lemma_text_parse(t1: Seq<char>, t2: Seq<char>, r1: Seq<u8>, r2: Seq<u8>)
    requires
        text(t1) + r1 == text(t2) + r2,
        text_fits(t1),
        text_fits(t2),
    ensures
        t1 == t2,
        r1 == r2,
{
    lemma_framed_parse("str"@, vstd::utf8::encode_utf8(t1), vstd::utf8::encode_utf8(t2), r1, r2);
    vstd::utf8::encode_utf8_decode_utf8(t1);
    vstd::utf8::encode_utf8_decode_utf8(t2);
}

/// The entries of a label map, from the first: each key, then its value.
spec fn labels_front(ks: Seq<Seq<char>>, vs: Seq<Seq<char>>) -> Seq<u8>
    decreases ks.len(),
{
    if ks.len() == 0 || vs.len() == 0 {
        Seq::empty()
    } else {
        text(ks[0]) + text(vs[0]) + labels_front(ks.drop_first(), vs.drop_first())
    }
}

proof fn lemma_labels_front_last(ks: Seq<Seq<char>>, vs: Seq<Seq<char>>)
    requires
        ks.len() == vs.len(),
        ks.len() > 0,
    ensures
        labels_front(ks, vs) == labels_front(ks.drop_last(), vs.drop_last()) + text(ks.last()) + text(vs.last()),
    decreases ks.len(),
{
    if ks.len() == 1 {
        assert(labels_front(ks.drop_first(), vs.drop_first()) == Seq::<u8>::empty());
        assert(labels_front(ks.drop_last(), vs.drop_last()) == Seq::<u8>::empty());
        assert(labels_front(ks, vs) =~= labels_front(ks.drop_last(), vs.drop_last()) + text(ks.last()) + text(vs.last()));
    } else {
        lemma_labels_front_last(ks.drop_first(), vs.drop_first());
        assert(ks.drop_first().drop_last() =~= ks.drop_last().drop_first());
        assert(vs.drop_first().drop_last() =~= vs.drop_last().drop_first());
        assert(labels_front(ks, vs) =~= labels_front(ks.drop_last(), vs.drop_last()) + text(ks.last()) + text(vs.last()));
    }
}

proof fn lemma_entries_front(ks: Seq<Seq<char>>, values: Seq<String>)
    requires
        ks.len() == values.len(),
    ensures
        entries_content(ks, values) == labels_front(ks, values.map_values(|v: String| v@)),
    decreases ks.len(),
{
    let vs = values.map_values(|v: String| v@);
    if ks.len() > 0 {
        lemma_entries_front(ks.drop_last(), values.drop_last());
        assert(values.drop_last().map_values(|v: String| v@) =~= vs.drop_last());
        lemma_labels_front_last(ks, vs);
        assert(entries_content(ks, values) =~= labels_front(ks, vs));
    }
}

/// Entries of one count are read back whole from the front of the bytes.
proof fn lemma_labels_parse(
    ks1: Seq<Seq<char>>,
    vs1: Seq<Seq<char>>,
    ks2: Seq<Seq<char>>,
    vs2: Seq<Seq<char>>,
    r1: Seq<u8>,
    r2: Seq<u8>,
)
    requires
        ks1.len() == vs1.len() == ks2.len() == vs2.len(),
        forall|i: int| 0 <= i < ks1.len() ==> text_fits(#[trigger] ks1[i]) && text_fits(vs1[i]),
        forall|i: int| 0 <= i < ks2.len() ==> text_fits(#[trigger] ks2[i]) && text_fits(vs2[i]),
        labels_front(ks1, vs1) + r1 == labels_front(ks2, vs2) + r2,
    ensures
        ks1 == ks2,
        vs1 == vs2,
        r1 == r2,
    decreases ks1.len(),
{
    if ks1.len() == 0 {
        assert(ks1 =~= ks2);
        assert(vs1 =~= vs2);
        assert(labels_front(ks1, vs1) + r1 =~= r1);
        assert(labels_front(ks2, vs2) + r2 =~= r2);
    } else {
        let rest1 = labels_front(ks1.drop_first(), vs1.drop_first()) + r1;
        let rest2 = labels_front(ks2.drop_first(), vs2.drop_first()) + r2;
        assert(labels_front(ks1, vs1) + r1 =~= text(ks1[0]) + (text(vs1[0]) + rest1));
        assert(labels_front(ks2, vs2) + r2 =~= text(ks2[0]) + (text(vs2[0]) + rest2));
        assert(text_fits(ks1[0]) && text_fits(vs1[0]));
        assert(text_fits(ks2[0]) && text_fits(vs2[0]));
        lemma_text_parse(ks1[0], ks2[0], text(vs1[0]) + rest1, text(vs2[0]) + rest2);
        lemma_text_parse(vs1[0], vs2[0], rest1, rest2);
        assert forall|i: int| 0 <= i < ks1.drop_first().len() implies text_fits(#[trigger] ks1.drop_first()[i]) && text_fits(
            vs1.drop_first()[i],
        ) by {
            assert(text_fits(ks1[i + 1]) && text_fits(vs1[i + 1]));
        }
        assert forall|i: int| 0 <= i < ks2.drop_first().len() implies text_fits(#[trigger] ks2.drop_first()[i]) && text_fits(
            vs2.drop_first()[i],
        ) by {
            assert(text_fits(ks2[i + 1]) && text_fits(vs2[i + 1]));
        }
        lemma_labels_parse(ks1.drop_first(), vs1.drop_first(), ks2.drop_first(), vs2.drop_first(), r1, r2);
        assert(ks1 =~= seq![ks1[0]] + ks1.drop_first());
        assert(ks2 =~= seq![ks2[0]] + ks2.drop_first());
        assert(vs1 =~= seq![vs1[0]] + vs1.drop_first());
        assert(vs2 =~= seq![vs2[0]] + vs2.drop_first());
    }
}

/// A label map is read back whole from the front of the bytes.
proof fn lemma_label_map_parse(a: LabelMap, b: LabelMap, r1: Seq<u8>, r2: Seq<u8>)
    requires
        a.content() + r1 == b.content() + r2,
        label_map_fits(a),
        label_map_fits(b),
    ensures
        label_map_view(a) == label_map_view(b),
        r1 == r2,
{
    a.lemma_shape();
    b.lemma_shape();
    let x = a.content() + r1;
    assert(x.subrange(0, 8) =~= be64(a.keys().len()));
    assert((b.content() + r2).subrange(0, 8) =~= be64(b.keys().len()));
    lemma_be64_injective(a.keys().len(), b.keys().len());
    lemma_entries_front(a.keys(), a.values());
    lemma_entries_front(b.keys(), b.values());
    let va = a.values().map_values(|v: String| v@);
    let vb = b.values().map_values(|v: String| v@);
    assert(x.skip(8) =~= labels_front(a.keys(), va) + r1);
    assert((b.content() + r2).skip(8) =~= labels_front(b.keys(), vb) + r2);
    assert forall|i: int| 0 <= i < a.keys().len() implies text_fits(#[trigger] a.keys()[i]) && text_fits(va[i]) by {
        assert(text_fits(a.keys()[i]) && text_fits(a.values()[i]@));
    }
    assert forall|i: int| 0 <= i < b.keys().len() implies text_fits(#[trigger] b.keys()[i]) && text_fits(vb[i]) by {
        assert(text_fits(b.keys()[i]) && text_fits(b.values()[i]@));
    }
    lemma_labels_parse(a.keys(), va, b.keys(), vb, r1, r2);
}

/// The items of a list, from the first.
spec fn items_front<T: HashContent>(items: Seq<T>) -> Seq<u8>
    decreases items.len(),
{
    if items.len() == 0 {
        Seq::empty()
    } else {
        items[0].content() + items_front(items.drop_first())
    }
}

proof fn lemma_items_front<T: HashContent>(items: Seq<T>)
    ensures
        items_content(items) == items_front(items),
    decreases items.len(),
{
    if items.len() > 0 {
        lemma_items_front(items.drop_last());
        lemma_items_front_last(items);
    }
}

proof fn lemma_items_front_last<T: HashContent>(items: Seq<T>)
    requires
        items.len() > 0,
    ensures
        items_front(items) == items_front(items.drop_last()) + items.last().content(),
    decreases items.len(),
{
    if items.len() == 1 {
        assert(items_front(items.drop_first()) == Seq::<u8>::empty());
        assert(items_front(items) =~= items_front(items.drop_last()) + items.last().content());
    } else {
        lemma_items_front_last(items.drop_first());
        assert(items.drop_first().drop_last() =~= items.drop_last().drop_first());
        assert(items_front(items) =~= items_front(items.drop_last()) + items.last().content());
    }
}

/// Label maps of one count are read back whole from the front of the
/// bytes.
proof fn lemma_maps_parse(m1: Seq<LabelMap>, m2: Seq<LabelMap>, r1: Seq<u8>, r2: Seq<u8>)
    requires
        m1.len() == m2.len(),
        forall|i: int| 0 <= i < m1.len() ==> label_map_fits(#[trigger] m1[i]),
        forall|i: int| 0 <= i < m2.len() ==> label_map_fits(#[trigger] m2[i]),
        items_front(m1) + r1 == items_front(m2) + r2,
    ensures
        selectors_view(m1) == selectors_view(m2),
        r1 == r2,
    decreases m1.len(),
{
    if m1.len() == 0 {
        assert(items_front(m1) + r1 =~= r1);
        assert(items_front(m2) + r2 =~= r2);
        assert(selectors_view(m1) =~= selectors_view(m2));
    } else {
        let rest1 = items_front(m1.drop_first()) + r1;
        let rest2 = items_front(m2.drop_first()) + r2;
        assert(items_front(m1) + r1 =~= m1[0].content() + rest1);
        assert(items_front(m2) + r2 =~= m2[0].content() + rest2);
        assert(label_map_fits(m1[0]));
        assert(label_map_fits(m2[0]));
        lemma_label_map_parse(m1[0], m2[0], rest1, rest2);
        assert forall|i: int| 0 <= i < m1.drop_first().len() implies label_map_fits(#[trigger] m1.drop_first()[i]) by {
            assert(label_map_fits(m1[i + 1]));
        }
        assert forall|i: int| 0 <= i < m2.drop_first().len() implies label_map_fits(#[trigger] m2.drop_first()[i]) by {
            assert(label_map_fits(m2[i + 1]));
        }
        lemma_maps_parse(m1.drop_first(), m2.drop_first(), r1, r2);
        assert(selectors_view(m1) =~= seq![label_map_view(m1[0])] + selectors_view(m1.drop_first()));
        assert(selectors_view(m2) =~= seq![label_map_view(m2[0])] + selectors_view(m2.drop_first()));
    }
}

/// A list of label maps is read back whole from the front of the bytes.
proof fn lemma_selectors_parse(a: Vec<LabelMap>, b: Vec<LabelMap>, r1: Seq<u8>, r2: Seq<u8>)
    requires
        a.content() + r1 == b.content() + r2,
        selectors_fit(a@),
        selectors_fit(b@),
    ensures
        selectors_view(a@) == selectors_view(b@),
        r1 == r2,
{
    let x = a.content() + r1;
    assert(x.subrange(0, 8) =~= be64(a@.len()));
    assert((b.content() + r2).subrange(0, 8) =~= be64(b@.len()));
    lemma_be64_injective(a@.len(), b@.len());
    lemma_items_front(a@);
    lemma_items_front(b@);
    assert(x.skip(8) =~= items_front(a@) + r1);
    assert((b.content() + r2).skip(8) =~= items_front(b@) + r2);
    lemma_maps_parse(a@, b@, r1, r2);
}


/// A collection of resource paths, with labels to add to what it collects.
#[derive(Debug, Clone)]
pub struct Kustomize {
    pub resources: Vec<String>,
    pub labels: Vec<LabelMap>,
}

impl HashContent for Kustomize {
    open spec fn content(&self) -> Seq<u8> {
        field("resources"@) + self.resources.content() + field("labels"@) + self.labels.content()
    }

    fn hash_content(&self, out: &mut Vec<u8>) {
        write_field(out, "resources");
        self.resources.hash_content(out);
        write_field(out, "labels");
        self.labels.hash_content(out);
        proof {
            assert(out@ =~= old(out)@ + self.content());
        }
    }
}

/// A step of a realized build: the act chosen, by its hash.
#[derive(Debug, Clone)]
pub struct RealizeStep {
    pub id: String,
    pub act: ShaSum,
    pub with: StrMap<String>,
    pub needs: Vec<String>,
}

impl HashContent for RealizeStep {
    open spec fn content(&self) -> Seq<u8> {
        field("id"@) + self.id.content() + field("act"@) + self.act.content() + field("with"@) + self.with.content()
            + field("needs"@) + self.needs.content()
    }

    fn hash_content(&self, out: &mut Vec<u8>) {
        write_field(out, "id");
        self.id.hash_content(out);
        write_field(out, "act");
        self.act.hash_content(out);
        write_field(out, "with");
        self.with.hash_content(out);
        write_field(out, "needs");
        self.needs.hash_content(out);
        proof {
            assert(out@ =~= old(out)@ + self.content());
        }
    }
}

/// A build graph with its acts chosen: the build it came from and its
/// steps.
#[derive(Debug, Clone)]
pub struct Realize {
    pub labels: LabelMap,
    pub build: ShaSum,
    pub steps: Vec<RealizeStep>,
}

impl HashContent for Realize {
    open spec fn content(&self) -> Seq<u8> {
        field("build"@) + self.build.content() + field("steps"@) + self.steps.content()
    }

    fn hash_content(&self, out: &mut Vec<u8>) {
        write_field(out, "build");
        self.build.hash_content(out);
        write_field(out, "steps");
        self.steps.hash_content(out);
        proof {
            assert(out@ =~= old(out)@ + self.content());
        }
    }
}

/// A source, known by its labels.
#[derive(Debug, Clone)]
pub struct Source {
    pub labels: LabelMap,
}

/// A kind of resource, with its API version and kind.
pub trait ResourceKind {
    spec fn kind_spec() -> Seq<char>;

    fn kind() -> (r: &'static str)
        ensures
            r@ == Self::kind_spec(),
    ;
}

/// The API version of build resources.
pub open spec fn api_version_spec() -> Seq<char> {
    "fase.io/v1alpha1"@
}

impl<E> ResourceKind for Act<E> {
    open spec fn kind_spec() -> Seq<char> {
        "Act"@
    }

    fn kind() -> (r: &'static str) {
        "Act"
    }
}

impl ResourceKind for Package {
    open spec fn kind_spec() -> Seq<char> {
        "Package"@
    }

    fn kind() -> (r: &'static str) {
        "Package"
    }
}

impl ResourceKind for Install {
    open spec fn kind_spec() -> Seq<char> {
        "Install"@
    }

    fn kind() -> (r: &'static str) {
        "Install"
    }
}

impl ResourceKind for Kustomize {
    open spec fn kind_spec() -> Seq<char> {
        "Kustomize"@
    }

    fn kind() -> (r: &'static str) {
        "Kustomize"
    }
}

impl ResourceKind for Realize {
    open spec fn kind_spec() -> Seq<char> {
        "Realize"@
    }

    fn kind() -> (r: &'static str) {
        "Realize"
    }
}

/// The bytes a resource's hash is taken over: its API version, its kind,
/// then its content.
pub open spec fn resource_bytes<R: ResourceKind + HashContent>(r: &R) -> Seq<u8> {
    field("apiVersion"@) + text(api_version_spec()) + field("kind"@) + text(R::kind_spec()) + r.content()
}

/// The content hash of a resource.
pub fn sha_resource<R: ResourceKind + HashContent>(resource: &R) -> (s: ShaSum)
    ensures
        s.0@ == sha512_of(resource_bytes(resource)),
{
    let mut out: Vec<u8> = Vec::new();
    write_field(&mut out, "apiVersion");
    write_text(&mut out, "fase.io/v1alpha1");
    write_field(&mut out, "kind");
    write_text(&mut out, R::kind());
    resource.hash_content(&mut out);
    proof {
        assert(out@ =~= resource_bytes(resource));
    }
    let digest = sha512_digest(out.as_slice());
    let mut bytes: [u8; 64] = [0u8; 64];
    let mut i: usize = 0;
    while i < 64
        invariant
            i <= 64,
            digest@.len() == 64,
            forall|k: int| 0 <= k < i ==> bytes@[k] == digest@[k],
        decreases 64 - i,
    {
        bytes[i] = digest[i];
        i = i + 1;
    }
    proof {
        assert(bytes@ =~= digest@);
    }
    ShaSum(bytes)
}

/// A resource with a content hash.
pub trait Sha {
    spec fn sha_spec(&self) -> Seq<u8>;

    fn sha512(&self) -> (s: ShaSum)
        ensures
            s.0@ == self.sha_spec(),
    ;
}

impl<E: HashContent> Sha for Act<E> {
    open spec fn sha_spec(&self) -> Seq<u8> {
        sha512_of(resource_bytes(self))
    }

    fn sha512(&self) -> (s: ShaSum) {
        sha_resource(self)
    }
}

impl Sha for Package {
    open spec fn sha_spec(&self) -> Seq<u8> {
        sha512_of(resource_bytes(self))
    }

    fn sha512(&self) -> (s: ShaSum) {
        sha_resource(self)
    }
}

impl Sha for Install {
    open spec fn sha_spec(&self) -> Seq<u8> {
        sha512_of(resource_bytes(self))
    }

    fn sha512(&self) -> (s: ShaSum) {
        sha_resource(self)
    }
}

impl Sha for Kustomize {
    open spec fn sha_spec(&self) -> Seq<u8> {
        sha512_of(resource_bytes(self))
    }

    fn sha512(&self) -> (s: ShaSum) {
        sha_resource(self)
    }
}

impl Sha for Realize {
    open spec fn sha_spec(&self) -> Seq<u8> {
        sha512_of(resource_bytes(self))
    }

    fn sha512(&self) -> (s: ShaSum) {
        sha_resource(self)
    }
}

/// Labels are no part of an act's content: two acts that differ in their
/// labels alone have one hash.
pub proof fn lemma_act_labels_not_hashed<E: HashContent>(a: Act<E>, b: Act<E>)
    requires
        a.inputs == b.inputs,
        a.map == b.map,
        a.matrix == b.matrix,
        a.outputs == b.outputs,
    ensures
        a.sha_spec() == b.sha_spec(),
{
}

/// A package is known by its labels alone: every package has one hash.
pub proof fn lemma_packages_share_hash(a: Package, b: Package)
    ensures
        a.sha_spec() == b.sha_spec(),
{
}

/// A character of a DNS label.
pub open spec fn dns_name_char(c: char) -> bool {
    is_lower(c) || is_digit(c) || c == '-'
}

/// A DNS label: letters in lower case, digits and dashes, not starting or
/// ending with a dash.
pub open spec fn dns_label_ok(s: Seq<char>) -> bool {
    &&& s.len() > 0
    &&& forall|i: int| 0 <= i < s.len() ==> dns_name_char(#[trigger] s[i])
    &&& s[0] != '-'
    &&& s.last() != '-'
}

/// The pieces of `s` between dots.
pub open spec fn split_dots(s: Seq<char>) -> Seq<Seq<char>>
    decreases s.len(),
{
    if s.len() == 0 {
        seq![Seq::<char>::empty()]
    } else {
        let p = split_dots(s.drop_last());
        if s.last() == '.' {
            p.push(Seq::<char>::empty())
        } else {
            p.update(p.len() - 1, p.last().push(s.last()))
        }
    }
}

/// A DNS name: DNS labels separated by single dots, as the pattern
/// `^[a-z0-9](?:[a-z0-9-]*[a-z0-9])?(?:\.[a-z0-9](?:[a-z0-9-]*[a-z0-9])?)*$`
/// matches.
pub open spec fn dns_name_spec(s: Seq<char>) -> bool {
    forall|i: int| 0 <= i < split_dots(s).len() ==> dns_label_ok(#[trigger] split_dots(s)[i])
}

/// Matches `value` with `regex::Regex` against the DNS name pattern; the
/// contract states what the pattern matches.
#[verifier::external_body]
fn dns_name_matches(value: &str) -> (b: bool)
    ensures
        b == dns_name_spec(value@),
{
    regex::Regex::new(r"^[a-z0-9](?:[a-z0-9-]*[a-z0-9])?(?:\.[a-z0-9](?:[a-z0-9-]*[a-z0-9])?)*$")
        .expect("the DNS name pattern compiles")
        .is_match(value)
}

/// A variable's value: a DNS name.
#[derive(Debug, Clone, PartialEq, Eq, PartialOrd, Ord)]
pub struct Var(String);

/// Why a text is not a variable's value.
#[derive(Debug, Clone)]
pub enum VarError {
    Empty,
    Format { val: String },
}

impl VarError {
    /// The message shown for the error.
    pub fn message(&self) -> (m: String)
        ensures
            match self {
                VarError::Empty => m@ == "empty"@,
                VarError::Format { val } => m@ == val@ + " is not a valid value"@,
            },
    {
        match self {
            VarError::Empty => owned("empty"),
            VarError::Format { val } => crate::text::concat(val.as_str(), " is not a valid value"),
        }
    }
}

impl Var {
    pub closed spec fn view(&self) -> Seq<char> {
        self.0@
    }

    /// A variable's value, if `value` is a non-empty DNS name.
    pub fn new(value: &str) -> (r: Result<Var, VarError>)
        ensures
            match r {
                Ok(v) => v.view() == value@ && dns_name_spec(value@) && value@.len() > 0,
                Err(VarError::Empty) => value@.len() == 0,
                Err(VarError::Format { val }) => val@ == value@ && value@.len() > 0 && !dns_name_spec(value@),
            },
    {
        Self::validate(owned(value))
    }

    fn validate(value: String) -> (r: Result<Var, VarError>)
        ensures
            match r {
                Ok(v) => v.view() == value@ && dns_name_spec(value@) && value@.len() > 0,
                Err(VarError::Empty) => value@.len() == 0,
                Err(VarError::Format { val }) => val@ == value@ && value@.len() > 0 && !dns_name_spec(value@),
            },
    {
        if chars_of(value.as_str()).len() == 0 {
            return Err(VarError::Empty);
        }
        if !dns_name_matches(value.as_str()) {
            return Err(VarError::Format { val: value });
        }
        Ok(Var(value))
    }

    pub fn as_str(&self) -> (r: &str)
        ensures
            r@ == self.view(),
    {
        self.0.as_str()
    }
}

impl HashContent for Var {
    open spec fn content(&self) -> Seq<u8> {
        text(self.view())
    }

    fn hash_content(&self, out: &mut Vec<u8>) {
        write_text(out, self.0.as_str());
    }
}

/// An expression of the command line: text to render.
#[derive(Debug, Clone, PartialEq, Eq, PartialOrd, Ord, Hash)]
pub struct Expr(pub String);

impl Expr {
    pub fn as_str(&self) -> (r: &str)
        ensures
            r@ == self.0@,
    {
        self.0.as_str()
    }
}

impl HashContent for Expr {
    open spec fn content(&self) -> Seq<u8> {
        text(self.0@)
    }

    fn hash_content(&self, out: &mut Vec<u8>) {
        write_text(out, self.0.as_str());
    }
}

} // verus!
