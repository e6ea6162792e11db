use vstd::prelude::*;

verus! {

/// The settings of a node that loads a CSV file.
#[derive(Clone, Debug, Hash)]
pub struct LoadData {
    pub separator: Option<String>,
    /// The file's path as text (`/` separates its components). Cache keys
    /// treat it as a path: texts with the same components give the same key.
    pub path: Option<String>,
}

/// The settings of a node that multiplies the first column of its input.
#[derive(Clone, Debug, Hash)]
pub struct Multiply {
    pub times: Option<i64>,
}

/// The settings of a node that keeps the last rows of its input.
#[derive(Clone, Debug, Hash)]
pub struct Tail {
    pub row_count: Option<usize>,
}

/// The settings of a node that keeps the first rows of its input.
#[derive(Clone, Debug, Hash)]
pub struct Head {
    pub row_count: Option<usize>,
}

/// The settings of a node that sums each column of its input.
#[derive(Clone, Debug, Hash)]
pub struct Sum {}

/// What a node does, with the parameters it does it with.
#[derive(Clone, Debug, Hash)]
pub enum NodeSettings {
    LoadData(LoadData),
    Multiply(Multiply),
    Sum(Sum),
    Tail(Tail),
    Head(Head),
}

/// Two settings are of the same kind when they belong to the same variant,
/// whatever their parameters.
pub open spec fn same_kind(a: NodeSettings, b: NodeSettings) -> bool {
    ||| a is LoadData && b is LoadData
    ||| a is Multiply && b is Multiply
    ||| a is Sum && b is Sum
    ||| a is Tail && b is Tail
    ||| a is Head && b is Head
}

/// The position of the settings' variant in the declaration: loader,
/// multiplier, sum, tail, head.
pub open spec fn variant_index(s: NodeSettings) -> int {
    match s {
        NodeSettings::LoadData(_) => 0,
        NodeSettings::Multiply(_) => 1,
        NodeSettings::Sum(_) => 2,
        NodeSettings::Tail(_) => 3,
        NodeSettings::Head(_) => 4,
    }
}

/// The kind of a node's settings is their variant and nothing else: two
/// settings match exactly when they are of the same variant, whatever
/// their fields; so each fresh setting matches every setting of its own
/// variant and no other.
pub proof fn lemma_kind_is_variant(a: NodeSettings, b: NodeSettings)
    ensures
        same_kind(a, b) <==> variant_index(a) == variant_index(b),
        forall|x: LoadData, y: LoadData|
            #[trigger] same_kind(NodeSettings::LoadData(x), NodeSettings::LoadData(y)),
        forall|x: Multiply, y: Multiply|
            #[trigger] same_kind(NodeSettings::Multiply(x), NodeSettings::Multiply(y)),
        forall|x: Sum, y: Sum| #[trigger] same_kind(NodeSettings::Sum(x), NodeSettings::Sum(y)),
        forall|x: Tail, y: Tail| #[trigger] same_kind(NodeSettings::Tail(x), NodeSettings::Tail(y)),
        forall|x: Head, y: Head| #[trigger] same_kind(NodeSettings::Head(x), NodeSettings::Head(y)),
        same_kind(a, NodeSettings::Multiply(Multiply { times: None })) <==> a is Multiply,
        same_kind(a, NodeSettings::Sum(Sum {})) <==> a is Sum,
        same_kind(a, NodeSettings::Tail(Tail { row_count: None })) <==> a is Tail,
        same_kind(a, NodeSettings::Head(Head { row_count: None })) <==> a is Head,
        same_kind(a, NodeSettings::LoadData(LoadData { separator: None, path: None })) <==> a is LoadData,
{
}

/// Being of the same kind is an equivalence: all settings match
/// themselves, matching goes both ways, and it carries over.
pub proof fn lemma_same_kind_is_equivalence(a: NodeSettings, b: NodeSettings, c: NodeSettings)
    ensures
        same_kind(a, a),
        same_kind(a, b) == same_kind(b, a),
        same_kind(a, b) && same_kind(b, c) ==> same_kind(a, c),
{
}

impl NodeSettings {
    /// A fresh CSV loader: no path yet, and a comma as separator.
    pub fn load_data() -> (s: Self)
        ensures
            s matches NodeSettings::LoadData(d) && (d.path is None && (d.separator matches Some(
                sep) && sep@ == ","@)),
    {
        NodeSettings::LoadData(LoadData { path: None, separator: Some(",".to_owned()) })
    }

    /// A fresh multiplier with no factor yet.
    pub fn multiply() -> (s: Self)
        ensures
            s == NodeSettings::Multiply(Multiply { times: None }),
    {
        NodeSettings::Multiply(Multiply { times: None })
    }

    /// A fresh column sum.
    pub fn sum() -> (s: Self)
        ensures
            s == NodeSettings::Sum(Sum {}),
    {
        NodeSettings::Sum(Sum {})
    }

    /// A fresh tail with no row count.
    pub fn tail() -> (s: Self)
        ensures
            s == NodeSettings::Tail(Tail { row_count: None }),
    {
        NodeSettings::Tail(Tail { row_count: None })
    }

    /// A fresh head with no row count.
    pub fn head() -> (s: Self)
        ensures
            s == NodeSettings::Head(Head { row_count: None }),
    {
        NodeSettings::Head(Head { row_count: None })
    }

    /// Whether `new_settings` may replace `self`: both must be of the same kind.
    pub fn matches_kind(&self, new_settings: &NodeSettings) -> (r: bool)
        ensures
            r == same_kind(*self, *new_settings),
            r == (variant_index(*self) == variant_index(*new_settings)),
    {
        match (self, new_settings) {
            (NodeSettings::LoadData(_), NodeSettings::LoadData(_))
            | (NodeSettings::Multiply(_), NodeSettings::Multiply(_))
            | (NodeSettings::Tail(_), NodeSettings::Tail(_))
            | (NodeSettings::Head(_), NodeSettings::Head(_))
            | (NodeSettings::Sum(_), NodeSettings::Sum(_)) => true,
            _ => false,
        }
    }
}

} // verus!

verus! {

fn copy_text(o: &Option<String>) -> (r: Option<String>)
    ensures
        r == *o,
{
    match o {
        Some(s) => Some(s.clone()),
        None => None,
    }
}

impl NodeSettings {
    /// An identical copy of these settings.
    pub fn duplicate(&self) -> (r: Self)
        ensures
            r == *self,
    {
        match self {
            NodeSettings::LoadData(d) => NodeSettings::LoadData(
                LoadData { separator: copy_text(&d.separator), path: copy_text(&d.path) },
            ),
            NodeSettings::Multiply(m) => NodeSettings::Multiply(Multiply { times: m.times }),
            NodeSettings::Sum(_) => NodeSettings::Sum(Sum {}),
            NodeSettings::Tail(t) => NodeSettings::Tail(Tail { row_count: t.row_count }),
            NodeSettings::Head(h) => NodeSettings::Head(Head { row_count: h.row_count }),
        }
    }
}

} // verus!
