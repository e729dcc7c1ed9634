//! Signatures, and what checking one against its signer's key has shown.

use vstd::prelude::*;

use crate::text;

verus! {

/// A signature algorithm.
#[derive(Clone, Copy, Debug, PartialEq, Eq, Structural)]
pub enum SignatureType {
    /// Dilithium, level 3.
    Dilithium3,
    /// ML-DSA-65.
    MlDsa65,
    /// SPHINCS+ with SHA-2, at 256 bits, the fast variant.
    SphincsSha2256f,
    /// Another algorithm, by its tag.
    Other(u8),
}

impl SignatureType {
    /// What the algorithm is called.
    pub open spec fn label(self) -> Seq<char> {
        match self {
            SignatureType::Dilithium3 => "Dilithium3"@,
            SignatureType::MlDsa65 => "MlDsa65"@,
            SignatureType::SphincsSha2256f => "SphincsSha2256f"@,
            SignatureType::Other(tag) => "Other("@ + text::decimal(tag as nat) + ")"@,
        }
    }

    /// What the algorithm is called, as text.
    pub fn name(self) -> (r: String)
        ensures
            r@ == self.label(),
    {
        match self {
            SignatureType::Dilithium3 => "Dilithium3".to_owned(),
            SignatureType::MlDsa65 => "MlDsa65".to_owned(),
            SignatureType::SphincsSha2256f => "SphincsSha2256f".to_owned(),
            SignatureType::Other(tag) => {
                let mut out = "Other(".to_owned();
                text::push_decimal(&mut out, tag as u64);
                out.append(")");
                out
            },
        }
    }
}

/// A signature with the algorithm that it claims.
#[derive(Debug)]
pub struct PQSignature {
    /// The algorithm that the sender claims.
    pub sig_type: SignatureType,
    /// The bytes of the signature.
    pub data: Vec<u8>,
}

/// A signature as a mathematical value.
#[verifier::ext_equal]
pub struct SignatureView {
    pub sig_type: SignatureType,
    pub data: Seq<u8>,
}

impl View for PQSignature {
    type V = SignatureView;

    open spec fn view(&self) -> SignatureView {
        SignatureView { sig_type: self.sig_type, data: self.data@ }
    }
}

impl PQSignature {
    /// A signature of an algorithm.
    pub fn new(sig_type: SignatureType, data: Vec<u8>) -> (r: Self)
        ensures
            r@ == (SignatureView { sig_type, data: data@ }),
    {
        PQSignature { sig_type, data }
    }

    /// A copy of the signature.
    pub fn duplicate(&self) -> (r: Self)
        ensures
            r@ == self@,
    {
        let data = self.data.clone();
        assert(data@ =~= self.data@);
        PQSignature { sig_type: self.sig_type, data }
    }
}

/// What the verification of a signature came to.
#[derive(Debug, PartialEq, Eq)]
pub enum Verdict {
    /// The signature is good.
    Valid,
    /// The signature is not the signer's over this message.
    Invalid,
    /// The signature could not be verified at all.
    Failed {
        /// What the verifier reported.
        detail: String,
    },
}

/// What is known of a signer and of a signature under its key.
#[derive(Debug, PartialEq, Eq)]
pub struct SignerEvidence {
    /// Whether the signer's public key is registered.
    pub key_known: bool,
    /// The algorithm that the signer's key and address stand for, where they stand for one.
    pub inferred: Option<SignatureType>,
    /// Whether that algorithm may be used.
    pub allowed: bool,
    /// What verifying the signature came to, with the algorithm that it claims, or with the signer's
    /// where it claims none.
    pub verdict: Verdict,
}

/// Why a signature does not count.
#[derive(Debug, PartialEq, Eq)]
pub enum SignerFault {
    /// The signer's public key is not registered.
    UnknownKey,
    /// No algorithm fits the signer's key and address.
    UnknownAlgorithm,
    /// The signer's algorithm may not be used.
    AlgorithmNotAllowed {
        /// The algorithm that the signer's key and address stand for.
        algorithm: SignatureType,
    },
    /// The signature claims another algorithm than its signer's.
    TagMismatch,
    /// The signature could not be verified at all.
    VerifierFailed {
        /// What the verifier reported.
        detail: String,
    },
    /// The signature is not the signer's over this message.
    InvalidSignature,
}

/// Why a signature does not count, if it does not. The algorithm that it claims is compared with the
/// signer's where it claims one.
pub open spec fn signer_fault(
    evidence: SignerEvidence,
    claimed: Option<SignatureType>,
) -> Option<SignerFault> {
    if !evidence.key_known {
        Some(SignerFault::UnknownKey)
    } else if evidence.inferred is None {
        Some(SignerFault::UnknownAlgorithm)
    } else if !evidence.allowed {
        Some(SignerFault::AlgorithmNotAllowed { algorithm: evidence.inferred->0 })
    } else if claimed is Some && claimed != evidence.inferred {
        Some(SignerFault::TagMismatch)
    } else {
        match evidence.verdict {
            Verdict::Valid => None,
            Verdict::Invalid => Some(SignerFault::InvalidSignature),
            Verdict::Failed { detail } => Some(SignerFault::VerifierFailed { detail }),
        }
    }
}

/// Decides whether a signature counts.
pub fn check_signer(evidence: &SignerEvidence, claimed: Option<SignatureType>) -> (r: Option<
    SignerFault,
>)
    ensures
        r == signer_fault(*evidence, claimed),
{
    if !evidence.key_known {
        return Some(SignerFault::UnknownKey);
    }
    match evidence.inferred {
        None => {
            return Some(SignerFault::UnknownAlgorithm);
        },
        Some(inferred) => {
            if !evidence.allowed {
                return Some(SignerFault::AlgorithmNotAllowed { algorithm: inferred });
            }
            match claimed {
                Some(tag) => {
                    if tag != inferred {
                        return Some(SignerFault::TagMismatch);
                    }
                },
                None => {},
            }
        },
    }
    match &evidence.verdict {
        Verdict::Valid => None,
        Verdict::Invalid => Some(SignerFault::InvalidSignature),
        Verdict::Failed { detail } => Some(SignerFault::VerifierFailed { detail: detail.clone() }),
    }
}

/// A signature counts exactly when its signer's key is registered, key and address stand for an
/// algorithm that may be used, the signature claims no other one, and it is good. Each fault is told
/// by the first of these that fails.
pub proof fn law_signatures_that_count(evidence: SignerEvidence, claimed: Option<SignatureType>)
    ensures
        signer_fault(evidence, claimed) is None <==> evidence.key_known && evidence.inferred is Some
            && evidence.allowed && (claimed is Some ==> claimed == evidence.inferred)
            && evidence.verdict is Valid,
        signer_fault(evidence, claimed) == Some(SignerFault::UnknownKey) <==> !evidence.key_known,
        signer_fault(evidence, claimed) == Some(SignerFault::UnknownAlgorithm)
            <==> evidence.key_known && evidence.inferred is None,
        (signer_fault(evidence, claimed) matches Some(SignerFault::AlgorithmNotAllowed { algorithm })
            && Some(algorithm) == evidence.inferred) <==> evidence.key_known && evidence.inferred is Some
            && !evidence.allowed,
        signer_fault(evidence, claimed) == Some(SignerFault::TagMismatch) <==> evidence.key_known
            && evidence.inferred is Some && evidence.allowed && claimed is Some && claimed
            != evidence.inferred,
        signer_fault(evidence, claimed) == Some(SignerFault::InvalidSignature) ==> evidence.verdict
            == Verdict::Invalid,
        (signer_fault(evidence, claimed) matches Some(SignerFault::VerifierFailed { detail })
            ==> evidence.verdict == (Verdict::Failed { detail })),
{
}

} // verus!
