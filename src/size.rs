use vstd::prelude::*;
use vstd::string::StringExecFns;

verus! {

/// The size of a deployment.
#[derive(Clone, Copy, Debug, PartialEq, Eq, Structural)]
pub enum DeploymentSize {
    XS,
    S,
    M,
    L,
    XL,
}

/// The size that the text `s` names, if any.
pub open spec fn size_named(s: Seq<char>) -> Option<DeploymentSize> {
    if s == "XS"@ {
        Some(DeploymentSize::XS)
    } else if s == "S"@ {
        Some(DeploymentSize::S)
    } else if s == "M"@ {
        Some(DeploymentSize::M)
    } else if s == "L"@ {
        Some(DeploymentSize::L)
    } else if s == "XL"@ {
        Some(DeploymentSize::XL)
    } else {
        None
    }
}

/// Reads a deployment size from its name, one of `XS`, `S`, `M`, `L`, `XL`.
pub fn parse_size(s: &str) -> (r: Result<DeploymentSize, String>)
    ensures
        match size_named(s@) {
            Some(z) => r == Ok::<DeploymentSize, String>(z),
            None => r is Err && r->Err_0@ == "Invalid size."@,
        },
{
    proof {
        reveal_strlit("XS");
        reveal_strlit("S");
        reveal_strlit("M");
        reveal_strlit("L");
        reveal_strlit("XL");
        reveal_strlit("Invalid size.");
    }
    let t = String::from_str(s);
    if t == String::from_str("XS") {
        Ok(DeploymentSize::XS)
    } else if t == String::from_str("S") {
        Ok(DeploymentSize::S)
    } else if t == String::from_str("M") {
        Ok(DeploymentSize::M)
    } else if t == String::from_str("L") {
        Ok(DeploymentSize::L)
    } else if t == String::from_str("XL") {
        Ok(DeploymentSize::XL)
    } else {
        Err(String::from_str("Invalid size."))
    }
}

} // verus!
