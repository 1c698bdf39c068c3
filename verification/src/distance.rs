use vstd::prelude::*;

verus! {

/// How two vectors are compared. The codes are those of the index files.
#[derive(Debug, Clone, Copy, PartialEq, Eq, Structural)]
pub enum MetricType {
    L2,
    InnerProduct,
    Cosine,
}

impl MetricType {
    pub open spec fn spec_code(self) -> u32 {
        match self {
            MetricType::L2 => 0,
            MetricType::InnerProduct => 1,
            MetricType::Cosine => 2,
        }
    }

    /// The metric with this code, if there is one.
    pub open spec fn spec_from_code(code: u32) -> Option<MetricType> {
        if code == 0 {
            Some(MetricType::L2)
        } else if code == 1 {
            Some(MetricType::InnerProduct)
        } else if code == 2 {
            Some(MetricType::Cosine)
        } else {
            None
        }
    }

    pub open spec fn spec_name(self) -> Seq<char> {
        match self {
            MetricType::L2 => "l2"@,
            MetricType::InnerProduct => "inner_product"@,
            MetricType::Cosine => "cosine"@,
        }
    }

    pub fn from_code(code: u32) -> (r: Option<Self>)
        ensures
            r == Self::spec_from_code(code),
    {
        match code {
            0 => Some(MetricType::L2),
            1 => Some(MetricType::InnerProduct),
            2 => Some(MetricType::Cosine),
            _ => None,
        }
    }

    pub fn code(self) -> (r: u32)
        ensures
            r == self.spec_code(),
    {
        match self {
            MetricType::L2 => 0,
            MetricType::InnerProduct => 1,
            MetricType::Cosine => 2,
        }
    }

    pub fn as_str(self) -> (r: &'static str)
        ensures
            r@ == self.spec_name(),
    {
        match self {
            MetricType::L2 => "l2",
            MetricType::InnerProduct => "inner_product",
            MetricType::Cosine => "cosine",
        }
    }

    /// A metric is found again under its own code, and no other code leads to it.
    pub proof fn code_round_trip(self, code: u32)
        ensures
            Self::spec_from_code(code) == Some(self) <==> code == self.spec_code(),
    {
    }
}

} // verus!
