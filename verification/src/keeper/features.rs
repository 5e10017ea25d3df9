//! Features of the runtime that are active from the first slot on, by the addresses that
//! `agave-feature-set` declares for them.

use vstd::prelude::*;

use crate::types::Pubkey;

verus! {

/// Calls for curve arithmetic.
pub const CURVE25519_SYSCALL_ENABLED: Pubkey = [
    101, 220, 53, 198, 111, 88, 30, 75, 127, 78, 228, 60, 96, 72, 3, 63,
    51, 136, 114, 80, 97, 129, 247, 8, 71, 22, 154, 81, 185, 114, 210, 233,
];

/// A limit on the length of multiscalar multiplication.
pub const CURVE25519_RESTRICT_MSM_LENGTH: Pubkey = [
    9, 162, 181, 188, 136, 80, 149, 190, 77, 225, 88, 90, 127, 243, 99, 114,
    193, 111, 64, 58, 154, 72, 15, 211, 81, 211, 179, 165, 198, 12, 75, 145,
];

/// The Poseidon hash call.
pub const ENABLE_POSEIDON_SYSCALL: Pubkey = [
    212, 235, 46, 203, 44, 130, 191, 60, 198, 171, 109, 108, 188, 47, 41, 3,
    171, 165, 87, 215, 45, 196, 78, 253, 188, 95, 241, 192, 108, 222, 162, 215,
];

/// The third version of the program format.
pub const ENABLE_SBPF_V3_DEPLOYMENT_AND_EXECUTION: Pubkey = [
    68, 114, 144, 215, 253, 197, 31, 15, 9, 251, 210, 61, 171, 107, 194, 165,
    102, 71, 73, 231, 110, 229, 255, 182, 59, 185, 182, 60, 57, 120, 120, 205,
];

/// The adjusted layout of program memory.
pub const VIRTUAL_ADDRESS_SPACE_ADJUSTMENTS: Pubkey = [
    1, 169, 235, 58, 28, 159, 47, 206, 232, 192, 205, 184, 237, 14, 17, 5,
    199, 17, 232, 138, 249, 188, 83, 135, 49, 209, 111, 84, 160, 125, 125, 47,
];

/// Restrictions on the addresses that calls take.
pub const SYSCALL_PARAMETER_ADDRESS_RESTRICTIONS: Pubkey = [
    196, 76, 65, 1, 112, 178, 191, 20, 182, 223, 254, 123, 88, 66, 44, 238,
    19, 105, 59, 120, 146, 42, 88, 62, 193, 24, 238, 184, 54, 112, 119, 184,
];

/// The call that reads sysvars.
pub const GET_SYSVAR_SYSCALL_ENABLED: Pubkey = [
    168, 91, 239, 82, 242, 98, 144, 130, 59, 210, 6, 221, 16, 231, 44, 91,
    156, 34, 14, 150, 138, 167, 46, 152, 140, 123, 2, 57, 14, 213, 154, 244,
];

/// Checks of Ed25519 signatures.
pub const ED25519_PROGRAM_ENABLED: Pubkey = [
    86, 138, 70, 157, 12, 233, 236, 165, 192, 96, 159, 160, 245, 232, 200, 179,
    193, 251, 216, 202, 132, 249, 250, 205, 104, 207, 186, 241, 199, 24, 87, 180,
];

/// Checks of secp256k1 signatures.
pub const SECP256K1_PROGRAM_ENABLED: Pubkey = [
    193, 196, 73, 87, 156, 5, 36, 217, 225, 104, 166, 90, 96, 214, 147, 63,
    122, 252, 85, 8, 16, 246, 70, 100, 151, 1, 196, 126, 24, 109, 91, 53,
];

/// Checks of secp256r1 signatures.
pub const ENABLE_SECP256R1_PRECOMPILE: Pubkey = [
    13, 7, 105, 178, 77, 249, 166, 163, 190, 70, 28, 205, 51, 79, 34, 205,
    53, 73, 152, 198, 246, 175, 182, 140, 229, 57, 239, 25, 17, 72, 86, 164,
];

/// The features that the engine needs.
pub open spec fn required_features() -> Seq<Pubkey> {
    seq![
        CURVE25519_SYSCALL_ENABLED,
        CURVE25519_RESTRICT_MSM_LENGTH,
        ENABLE_POSEIDON_SYSCALL,
        ENABLE_SBPF_V3_DEPLOYMENT_AND_EXECUTION,
        VIRTUAL_ADDRESS_SPACE_ADJUSTMENTS,
        SYSCALL_PARAMETER_ADDRESS_RESTRICTIONS,
        GET_SYSVAR_SYSCALL_ENABLED,
        ED25519_PROGRAM_ENABLED,
        SECP256K1_PROGRAM_ENABLED,
        ENABLE_SECP256R1_PRECOMPILE,
    ]
}

/// Curve arithmetic with its limit, the Poseidon hash, the third program format with its memory
/// layout and its address restrictions, sysvar reads, and checks of the three kinds of signatures
/// are all needed, and nothing else is.
pub proof fn every_feature_is_needed()
    ensures
        required_features().len() == 10,
        required_features().contains(CURVE25519_SYSCALL_ENABLED),
        required_features().contains(CURVE25519_RESTRICT_MSM_LENGTH),
        required_features().contains(ENABLE_POSEIDON_SYSCALL),
        required_features().contains(ENABLE_SBPF_V3_DEPLOYMENT_AND_EXECUTION),
        required_features().contains(VIRTUAL_ADDRESS_SPACE_ADJUSTMENTS),
        required_features().contains(SYSCALL_PARAMETER_ADDRESS_RESTRICTIONS),
        required_features().contains(GET_SYSVAR_SYSCALL_ENABLED),
        required_features().contains(ED25519_PROGRAM_ENABLED),
        required_features().contains(SECP256K1_PROGRAM_ENABLED),
        required_features().contains(ENABLE_SECP256R1_PRECOMPILE),
{
    let list = required_features();
    assert(list[0] == CURVE25519_SYSCALL_ENABLED);
    assert(list[1] == CURVE25519_RESTRICT_MSM_LENGTH);
    assert(list[2] == ENABLE_POSEIDON_SYSCALL);
    assert(list[3] == ENABLE_SBPF_V3_DEPLOYMENT_AND_EXECUTION);
    assert(list[4] == VIRTUAL_ADDRESS_SPACE_ADJUSTMENTS);
    assert(list[5] == SYSCALL_PARAMETER_ADDRESS_RESTRICTIONS);
    assert(list[6] == GET_SYSVAR_SYSCALL_ENABLED);
    assert(list[7] == ED25519_PROGRAM_ENABLED);
    assert(list[8] == SECP256K1_PROGRAM_ENABLED);
    assert(list[9] == ENABLE_SECP256R1_PRECOMPILE);
}

/// The features that the engine needs.
pub fn features() -> (list: Vec<Pubkey>)
    ensures
        list@ == required_features(),
{
    let mut list: Vec<Pubkey> = Vec::new();
    list.push(CURVE25519_SYSCALL_ENABLED);
    list.push(CURVE25519_RESTRICT_MSM_LENGTH);
    list.push(ENABLE_POSEIDON_SYSCALL);
    list.push(ENABLE_SBPF_V3_DEPLOYMENT_AND_EXECUTION);
    list.push(VIRTUAL_ADDRESS_SPACE_ADJUSTMENTS);
    list.push(SYSCALL_PARAMETER_ADDRESS_RESTRICTIONS);
    list.push(GET_SYSVAR_SYSCALL_ENABLED);
    list.push(ED25519_PROGRAM_ENABLED);
    list.push(SECP256K1_PROGRAM_ENABLED);
    list.push(ENABLE_SECP256R1_PRECOMPILE);
    assert(list@ =~= required_features());
    list
}

} // verus!
