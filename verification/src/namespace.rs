//! The partition of the vector store that a corpus is indexed into.
//!
//! A namespace is derived from the root of the corpus, the version of the
//! pipeline, the name of the model and the dimension of its vectors. The
//! dimension is part of the name, so that vectors of another dimension can
//! never meet those of this namespace in one collection.
use crate::text::chars_of;
use vstd::prelude::*;
use vstd::string::StringExecFns;

verus! {

/// A collection of the vector store. All vectors in it have one dimension.
#[derive(Debug, PartialEq, Eq)]
pub struct Namespace {
    pub name: String,
    pub dimension: usize,
}

/// A path with every `/` replaced by `-`.
pub open spec fn dashed(path: Seq<char>) -> Seq<char> {
    path.map_values(
        |c: char|
            if c == '/' {
                '-'
            } else {
                c
            },
    )
}

/// The decimal digit of a number below ten.
pub open spec fn digit(d: nat) -> char {
    if d == 0 {
        '0'
    } else if d == 1 {
        '1'
    } else if d == 2 {
        '2'
    } else if d == 3 {
        '3'
    } else if d == 4 {
        '4'
    } else if d == 5 {
        '5'
    } else if d == 6 {
        '6'
    } else if d == 7 {
        '7'
    } else if d == 8 {
        '8'
    } else {
        '9'
    }
}

/// A number written in decimal digits, without leading zeros.
pub open spec fn decimal(n: nat) -> Seq<char>
    decreases n,
{
    if n < 10 {
        seq![digit(n)]
    } else {
        decimal(n / 10).push(digit(n % 10))
    }
}

/// The name of the namespace of a corpus: it is made of the version of the
/// pipeline, the root of the corpus, the name of the model and the
/// dimension of the vectors.
pub open spec fn namespace_name(
    root: Seq<char>,
    version: Seq<char>,
    model: Seq<char>,
    dimension: usize,
) -> Seq<char> {
    "swiftide-ask-v"@ + version + "-"@ + dashed(root) + "-"@ + model + "-"@ + decimal(
        dimension as nat,
    )
}

/// Replaces every `/` of a path by `-`.
pub fn dash_path(path: &str) -> (out: String)
    ensures
        out@ == dashed(path@),
{
    let chars = chars_of(path);
    let mut out = String::new();
    let mut i: usize = 0;
    while i < chars.len()
        invariant
            i <= chars.len(),
            chars@ == path@,
            out@ == dashed(path@).take(i as int),
        decreases chars.len() - i,
    {
        if chars[i] == '/' {
            proof {
                reveal_strlit("-");
            }
            out.append("-");
            assert(out@ =~= dashed(path@).take(i + 1));
        } else {
            let one = path.substring_char(i, i + 1);
            out.append(one);
            assert(out@ =~= dashed(path@).take(i + 1));
        }
        i += 1;
    }
    assert(dashed(path@).take(chars.len() as int) =~= dashed(path@));
    out
}

/// Writes a number in decimal digits behind a text.
pub fn append_decimal(out: &mut String, n: usize)
    ensures
        final(out)@ == old(out)@ + decimal(n as nat),
    decreases n,
{
    if n >= 10 {
        append_decimal(out, n / 10);
    }
    let ghost before = out@;
    let d = n % 10;
    proof {
        reveal_strlit("0");
        reveal_strlit("1");
        reveal_strlit("2");
        reveal_strlit("3");
        reveal_strlit("4");
        reveal_strlit("5");
        reveal_strlit("6");
        reveal_strlit("7");
        reveal_strlit("8");
        reveal_strlit("9");
    }
    if d == 0 {
        out.append("0");
    } else if d == 1 {
        out.append("1");
    } else if d == 2 {
        out.append("2");
    } else if d == 3 {
        out.append("3");
    } else if d == 4 {
        out.append("4");
    } else if d == 5 {
        out.append("5");
    } else if d == 6 {
        out.append("6");
    } else if d == 7 {
        out.append("7");
    } else if d == 8 {
        out.append("8");
    } else {
        out.append("9");
    }
    assert(out@ =~= before.push(digit(d as nat)));
    assert(n >= 10 ==> out@ =~= old(out)@ + decimal((n / 10) as nat).push(digit((n % 10) as nat)));
    assert(n < 10 ==> out@ =~= old(out)@ + seq![digit(n as nat)]);
}

impl Namespace {
    /// The namespace of the corpus under `root`, indexed by the given version
    /// of the pipeline with the given model, whose vectors have `dimension`
    /// components. The same arguments always give the same namespace.
    pub fn derive(root: &str, version: &str, model: &str, dimension: usize) -> (namespace:
        Namespace)
        ensures
            namespace.name@ == namespace_name(root@, version@, model@, dimension),
            namespace.dimension == dimension,
    {
        let mut name = String::from_str("swiftide-ask-v");
        name.append(version);
        name.append("-");
        let dashed = dash_path(root);
        name.append(dashed.as_str());
        name.append("-");
        name.append(model);
        name.append("-");
        append_decimal(&mut name, dimension);
        Namespace { name, dimension }
    }
}

/// Whether a text holds a hyphen.
spec fn has_hyphen(text: Seq<char>) -> bool {
    exists|i: int| 0 <= i < text.len() && #[trigger] text[i] == '-'
}

/// A number in decimal digits is not empty and holds no hyphen.
proof fn lemma_decimal_digits(n: nat)
    ensures
        decimal(n).len() >= 1,
        !has_hyphen(decimal(n)),
        n >= 10 ==> decimal(n).len() >= 2,
    decreases n,
{
    if n >= 10 {
        lemma_decimal_digits(n / 10);
        let d = decimal(n);
        assert forall|i: int| 0 <= i < d.len() implies #[trigger] d[i] != '-' by {
            if i < d.len() - 1 {
                assert(d[i] == decimal(n / 10)[i]);
            }
        }
    }
}

/// Different numbers below ten have different digits.
proof fn lemma_digit_injective(a: nat, b: nat)
    requires
        a < 10,
        b < 10,
        digit(a) == digit(b),
    ensures
        a == b,
{
}

/// Different numbers are written differently.
proof fn lemma_decimal_injective(a: nat, b: nat)
    requires
        decimal(a) == decimal(b),
    ensures
        a == b,
    decreases a,
{
    lemma_decimal_digits(a);
    lemma_decimal_digits(b);
    if a < 10 || b < 10 {
        assert(decimal(a).len() == 1);
        assert(a < 10 && b < 10);
        assert(decimal(a) == seq![digit(a)]);
        assert(decimal(b) == seq![digit(b)]);
        assert(seq![digit(a)][0] == seq![digit(b)][0]);
        lemma_digit_injective(a, b);
    } else {
        let da = decimal(a);
        let db = decimal(b);
        assert(da.last() == db.last());
        assert(da.drop_last() =~= decimal(a / 10));
        assert(db.drop_last() =~= decimal(b / 10));
        lemma_decimal_injective(a / 10, b / 10);
        assert(digit(a % 10) == digit(b % 10));
        lemma_digit_injective(a % 10, b % 10);
    }
}

/// The dimension separates namespaces: two namespaces of the same name
/// have the same dimension. A model of another dimension thus gets a
/// namespace of its own, whatever corpus, version and model name it shares
/// with this one.
pub proof fn law_dimension_separates_namespaces(
    root1: Seq<char>,
    version1: Seq<char>,
    model1: Seq<char>,
    dimension1: usize,
    root2: Seq<char>,
    version2: Seq<char>,
    model2: Seq<char>,
    dimension2: usize,
)
    requires
        namespace_name(root1, version1, model1, dimension1) == namespace_name(
            root2,
            version2,
            model2,
            dimension2,
        ),
    ensures
        dimension1 == dimension2,
{
    reveal_strlit("-");
    let head1 = "swiftide-ask-v"@ + version1 + "-"@ + dashed(root1) + "-"@ + model1;
    let head2 = "swiftide-ask-v"@ + version2 + "-"@ + dashed(root2) + "-"@ + model2;
    let tail1 = decimal(dimension1 as nat);
    let tail2 = decimal(dimension2 as nat);
    let name = namespace_name(root1, version1, model1, dimension1);
    assert(name == head1 + "-"@ + tail1);
    assert(name == head2 + "-"@ + tail2);
    lemma_decimal_digits(dimension1 as nat);
    lemma_decimal_digits(dimension2 as nat);
    assert(name.len() == head1.len() + 1 + tail1.len());
    assert(name.len() == head2.len() + 1 + tail2.len());
    assert(name[head1.len() as int] == '-');
    assert(name[head2.len() as int] == '-');
    if tail1.len() < tail2.len() {
        assert(name[head1.len() as int] == tail2[head1.len() - head2.len() - 1]);
    } else if tail2.len() < tail1.len() {
        assert(name[head2.len() as int] == tail1[head2.len() - head1.len() - 1]);
    } else {
        assert forall|i: int| 0 <= i < tail1.len() implies tail1[i] == tail2[i] by {
            assert(name[head1.len() + 1 + i] == tail1[i]);
            assert(name[head2.len() + 1 + i] == tail2[i]);
        }
        assert(tail1 =~= tail2);
        lemma_decimal_injective(dimension1 as nat, dimension2 as nat);
    }
}

} // verus!
