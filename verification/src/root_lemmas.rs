//! The order of the fixed root of unity: its `2^31`-th power is minus one, so
//! that it generates a subgroup of exactly `2^32` elements.
//!
//! The proof squares the root 31 times. Each squaring is one modular
//! multiplication of two known numbers, which the solver evaluates; each has a
//! lemma of its own, and the chain that joins them sees the powers only
//! through an opaque predicate, to keep the solver's work small.
use crate::field::{fmul, fpow, modulus, root_of_unity_value};
use crate::field_lemmas::{lemma_fpow_add, lemma_fpow_one};
use vstd::arithmetic::power2::{lemma2_to64, lemma_pow2_unfold, pow2};
use vstd::prelude::*;

verus! {

/// Whether `v` is the root of unity raised to `2^k`.
#[verifier::opaque]
spec fn root_power_is(k: nat, v: nat) -> bool {
    fpow(root_of_unity_value(), pow2(k)) == v
}

/// Squaring a known power of the root of unity doubles the exponent.
proof fn lemma_square_step(k: nat, v: nat, w: nat)
    requires
        root_power_is(k, v),
        fmul(v, v) == w,
    ensures
        root_power_is(k + 1, w),
{
    reveal(root_power_is);
    lemma_pow2_unfold(k + 1);
    lemma_fpow_add(root_of_unity_value(), pow2(k), pow2(k));
}

proof fn lemma_root_power_0()
    ensures
        root_power_is(0, root_of_unity_value()),
{
    reveal(root_power_is);
    reveal(modulus);
    lemma2_to64();
    lemma_fpow_one(root_of_unity_value());
}

proof fn lemma_root_power_1()
    ensures
        root_power_is(1, 0x2c4273e5d2eb1de98c9176cb401abf06c4938ab16ac69c2b9645ee87acea193bnat),
{
    reveal(modulus);
    lemma_root_power_0();
    lemma_square_step(0, root_of_unity_value(), 0x2c4273e5d2eb1de98c9176cb401abf06c4938ab16ac69c2b9645ee87acea193bnat);
}

proof fn lemma_root_power_2()
    ensures
        root_power_is(2, 0x2e99e0eeba6afb04d748bb4c8f7746167a3163883882dd3401793e65f9e09bbdnat),
{
    reveal(modulus);
    lemma_root_power_1();
    lemma_square_step(1, 0x2c4273e5d2eb1de98c9176cb401abf06c4938ab16ac69c2b9645ee87acea193bnat, 0x2e99e0eeba6afb04d748bb4c8f7746167a3163883882dd3401793e65f9e09bbdnat);
}

proof fn lemma_root_power_3()
    ensures
        root_power_is(3, 0x223b10e2909d647727473e05119a70bf69fe5716194f8d1100e79397659a24ednat),
{
    reveal(modulus);
    lemma_root_power_2();
    lemma_square_step(2, 0x2e99e0eeba6afb04d748bb4c8f7746167a3163883882dd3401793e65f9e09bbdnat, 0x223b10e2909d647727473e05119a70bf69fe5716194f8d1100e79397659a24ednat);
}

proof fn lemma_root_power_4()
    ensures
        root_power_is(4, 0x088ef444b9a63e67dce3f521ea318e20d55a3e3fa4f0d2de615bd0d717c62c05nat),
{
    reveal(modulus);
    lemma_root_power_3();
    lemma_square_step(3, 0x223b10e2909d647727473e05119a70bf69fe5716194f8d1100e79397659a24ednat, 0x088ef444b9a63e67dce3f521ea318e20d55a3e3fa4f0d2de615bd0d717c62c05nat);
}

proof fn lemma_root_power_5()
    ensures
        root_power_is(5, 0x038bbffdbaedf01944c6fb4257565f4a05376d4d8ce7e86f50d96bb7262957d3nat),
{
    reveal(modulus);
    lemma_root_power_4();
    lemma_square_step(4, 0x088ef444b9a63e67dce3f521ea318e20d55a3e3fa4f0d2de615bd0d717c62c05nat, 0x038bbffdbaedf01944c6fb4257565f4a05376d4d8ce7e86f50d96bb7262957d3nat);
}

proof fn lemma_root_power_6()
    ensures
        root_power_is(6, 0x2b32b23c415d3e576c4d05c1b1d89d9ba57789d36d6a6e3726a28916f7e648e1nat),
{
    reveal(modulus);
    lemma_root_power_5();
    lemma_square_step(5, 0x038bbffdbaedf01944c6fb4257565f4a05376d4d8ce7e86f50d96bb7262957d3nat, 0x2b32b23c415d3e576c4d05c1b1d89d9ba57789d36d6a6e3726a28916f7e648e1nat);
}

proof fn lemma_root_power_7()
    ensures
        root_power_is(7, 0x365bd233e19a77476101c7698b1c063f5b7353922f426d682549375fb22e49d3nat),
{
    reveal(modulus);
    lemma_root_power_6();
    lemma_square_step(6, 0x2b32b23c415d3e576c4d05c1b1d89d9ba57789d36d6a6e3726a28916f7e648e1nat, 0x365bd233e19a77476101c7698b1c063f5b7353922f426d682549375fb22e49d3nat);
}

proof fn lemma_root_power_8()
    ensures
        root_power_is(8, 0x31951d72cbf5ee0d78d9867098e13b79fb81505e6db526ce5190e23731a54569nat),
{
    reveal(modulus);
    lemma_root_power_7();
    lemma_square_step(7, 0x365bd233e19a77476101c7698b1c063f5b7353922f426d682549375fb22e49d3nat, 0x31951d72cbf5ee0d78d9867098e13b79fb81505e6db526ce5190e23731a54569nat);
}

proof fn lemma_root_power_9()
    ensures
        root_power_is(9, 0x1c6a098fa72833f405a8dc469477bbe65b995f8670713a0fc3831c6abcf38cb1nat),
{
    reveal(modulus);
    lemma_root_power_8();
    lemma_square_step(8, 0x31951d72cbf5ee0d78d9867098e13b79fb81505e6db526ce5190e23731a54569nat, 0x1c6a098fa72833f405a8dc469477bbe65b995f8670713a0fc3831c6abcf38cb1nat);
}

proof fn lemma_root_power_10()
    ensures
        root_power_is(10, 0x0d8c20d3f81693b34d98347484bde7a92c9244a2a37a6ded9bfb7e07b75cb10cnat),
{
    reveal(modulus);
    lemma_root_power_9();
    lemma_square_step(9, 0x1c6a098fa72833f405a8dc469477bbe65b995f8670713a0fc3831c6abcf38cb1nat, 0x0d8c20d3f81693b34d98347484bde7a92c9244a2a37a6ded9bfb7e07b75cb10cnat);
}

proof fn lemma_root_power_11()
    ensures
        root_power_is(11, 0x044694ccde4116800af467b81f89c782f175600cc0aed539085db943eb10148enat),
{
    reveal(modulus);
    lemma_root_power_10();
    lemma_square_step(10, 0x0d8c20d3f81693b34d98347484bde7a92c9244a2a37a6ded9bfb7e07b75cb10cnat, 0x044694ccde4116800af467b81f89c782f175600cc0aed539085db943eb10148enat);
}

proof fn lemma_root_power_12()
    ensures
        root_power_is(12, 0x3a4a077c9c0654e7e98d9f1c0b146bf64171285db283f84b463f4019b18ed31bnat),
{
    reveal(modulus);
    lemma_root_power_11();
    lemma_square_step(11, 0x044694ccde4116800af467b81f89c782f175600cc0aed539085db943eb10148enat, 0x3a4a077c9c0654e7e98d9f1c0b146bf64171285db283f84b463f4019b18ed31bnat);
}

proof fn lemma_root_power_13()
    ensures
        root_power_is(13, 0x1c6807d58325da33dfb456db63dcf180e1491c6808fe947b90d867fbd3e61b7fnat),
{
    reveal(modulus);
    lemma_root_power_12();
    lemma_square_step(12, 0x3a4a077c9c0654e7e98d9f1c0b146bf64171285db283f84b463f4019b18ed31bnat, 0x1c6807d58325da33dfb456db63dcf180e1491c6808fe947b90d867fbd3e61b7fnat);
}

proof fn lemma_root_power_14()
    ensures
        root_power_is(14, 0x14078ea8cdee85a0950d9a272227e4f52c624e853d02ad879ec22f8bf80662c4nat),
{
    reveal(modulus);
    lemma_root_power_13();
    lemma_square_step(13, 0x1c6807d58325da33dfb456db63dcf180e1491c6808fe947b90d867fbd3e61b7fnat, 0x14078ea8cdee85a0950d9a272227e4f52c624e853d02ad879ec22f8bf80662c4nat);
}

proof fn lemma_root_power_15()
    ensures
        root_power_is(15, 0x0f971f9f81878a727f025b2aca0774ead6d1be12fb8a867820245ff86e558730nat),
{
    reveal(modulus);
    lemma_root_power_14();
    lemma_square_step(14, 0x14078ea8cdee85a0950d9a272227e4f52c624e853d02ad879ec22f8bf80662c4nat, 0x0f971f9f81878a727f025b2aca0774ead6d1be12fb8a867820245ff86e558730nat);
}

proof fn lemma_root_power_16()
    ensures
        root_power_is(16, 0x23222d06029d21a655392ad9dda387278c1c46359289a4d3d465aafc06d1cf1anat),
{
    reveal(modulus);
    lemma_root_power_15();
    lemma_square_step(15, 0x0f971f9f81878a727f025b2aca0774ead6d1be12fb8a867820245ff86e558730nat, 0x23222d06029d21a655392ad9dda387278c1c46359289a4d3d465aafc06d1cf1anat);
}

proof fn lemma_root_power_17()
    ensures
        root_power_is(17, 0x2fd0767705fa5b03402039fc9e89ad1de3c85d25401fd8dd898dce603d1c0f3enat),
{
    reveal(modulus);
    lemma_root_power_16();
    lemma_square_step(16, 0x23222d06029d21a655392ad9dda387278c1c46359289a4d3d465aafc06d1cf1anat, 0x2fd0767705fa5b03402039fc9e89ad1de3c85d25401fd8dd898dce603d1c0f3enat);
}

proof fn lemma_root_power_18()
    ensures
        root_power_is(18, 0x1aa07732b05972abcadc042243371883e38cca91106ecac1e26a77c64bc5bec4nat),
{
    reveal(modulus);
    lemma_root_power_17();
    lemma_square_step(17, 0x2fd0767705fa5b03402039fc9e89ad1de3c85d25401fd8dd898dce603d1c0f3enat, 0x1aa07732b05972abcadc042243371883e38cca91106ecac1e26a77c64bc5bec4nat);
}

proof fn lemma_root_power_19()
    ensures
        root_power_is(19, 0x03b402c2cbd0a0660626f1948867533cfd2a80abd33d0e808075a3efc92d52d2nat),
{
    reveal(modulus);
    lemma_root_power_18();
    lemma_square_step(18, 0x1aa07732b05972abcadc042243371883e38cca91106ecac1e26a77c64bc5bec4nat, 0x03b402c2cbd0a0660626f1948867533cfd2a80abd33d0e808075a3efc92d52d2nat);
}

proof fn lemma_root_power_20()
    ensures
        root_power_is(20, 0x028961bbd9c63b7bd7c75f72e02a9727d14d99e7985184470d34cd1b8ef03001nat),
{
    reveal(modulus);
    lemma_root_power_19();
    lemma_square_step(19, 0x03b402c2cbd0a0660626f1948867533cfd2a80abd33d0e808075a3efc92d52d2nat, 0x028961bbd9c63b7bd7c75f72e02a9727d14d99e7985184470d34cd1b8ef03001nat);
}

proof fn lemma_root_power_21()
    ensures
        root_power_is(21, 0x181b50ad5f32119e31cbd395426d600b7a9b88bcaaa1c24eef28545aada17813nat),
{
    reveal(modulus);
    lemma_root_power_20();
    lemma_square_step(20, 0x028961bbd9c63b7bd7c75f72e02a9727d14d99e7985184470d34cd1b8ef03001nat, 0x181b50ad5f32119e31cbd395426d600b7a9b88bcaaa1c24eef28545aada17813nat);
}

proof fn lemma_root_power_22()
    ensures
        root_power_is(22, 0x1421deb15f5ce205068512b010382353dc0aa1b40386a1c14774c65664bb8182nat),
{
    reveal(modulus);
    lemma_root_power_21();
    lemma_square_step(21, 0x181b50ad5f32119e31cbd395426d600b7a9b88bcaaa1c24eef28545aada17813nat, 0x1421deb15f5ce205068512b010382353dc0aa1b40386a1c14774c65664bb8182nat);
}

proof fn lemma_root_power_23()
    ensures
        root_power_is(23, 0x0cb8102d0128ebb25343154773101eaf1a9daef679667eb4bd1e06b973e985e4nat),
{
    reveal(modulus);
    lemma_root_power_22();
    lemma_square_step(22, 0x1421deb15f5ce205068512b010382353dc0aa1b40386a1c14774c65664bb8182nat, 0x0cb8102d0128ebb25343154773101eaf1a9daef679667eb4bd1e06b973e985e4nat);
}

proof fn lemma_root_power_24()
    ensures
        root_power_is(24, 0x21d0b0a3be45b5ee2ff5140e6007a63bc5ac7dc51c50ed52ebf2f918f4d603c9nat),
{
    reveal(modulus);
    lemma_root_power_23();
    lemma_square_step(23, 0x0cb8102d0128ebb25343154773101eaf1a9daef679667eb4bd1e06b973e985e4nat, 0x21d0b0a3be45b5ee2ff5140e6007a63bc5ac7dc51c50ed52ebf2f918f4d603c9nat);
}

proof fn lemma_root_power_25()
    ensures
        root_power_is(25, 0x00a31cd9ef8679794deeb656fd6b01c97550149e556476b314244fb708d44fc3nat),
{
    reveal(modulus);
    lemma_root_power_24();
    lemma_square_step(24, 0x21d0b0a3be45b5ee2ff5140e6007a63bc5ac7dc51c50ed52ebf2f918f4d603c9nat, 0x00a31cd9ef8679794deeb656fd6b01c97550149e556476b314244fb708d44fc3nat);
}

proof fn lemma_root_power_26()
    ensures
        root_power_is(26, 0x1868ca50534a180d97ff23a878e088b0b9569c85b0a15d666c23ded157fceebanat),
{
    reveal(modulus);
    lemma_root_power_25();
    lemma_square_step(25, 0x00a31cd9ef8679794deeb656fd6b01c97550149e556476b314244fb708d44fc3nat, 0x1868ca50534a180d97ff23a878e088b0b9569c85b0a15d666c23ded157fceebanat);
}

proof fn lemma_root_power_27()
    ensures
        root_power_is(27, 0x0cc3380dc616f2e1daf29ad1560833ed3baea3393eceb7bc8fa36376929b78ccnat),
{
    reveal(modulus);
    lemma_root_power_26();
    lemma_square_step(26, 0x1868ca50534a180d97ff23a878e088b0b9569c85b0a15d666c23ded157fceebanat, 0x0cc3380dc616f2e1daf29ad1560833ed3baea3393eceb7bc8fa36376929b78ccnat);
}

proof fn lemma_root_power_28()
    ensures
        root_power_is(28, 0x17e6c570737897f385e789dcbc7a09bd4f82ab3e1182aecd80ec9d0beefa6c6dnat),
{
    reveal(modulus);
    lemma_root_power_27();
    lemma_square_step(27, 0x0cc3380dc616f2e1daf29ad1560833ed3baea3393eceb7bc8fa36376929b78ccnat, 0x17e6c570737897f385e789dcbc7a09bd4f82ab3e1182aecd80ec9d0beefa6c6dnat);
}

proof fn lemma_root_power_29()
    ensures
        root_power_is(29, 0x3f8f1cc60c6da729d26301123de65ed9c73bfb511bf223ac1d15074e708ac5aenat),
{
    reveal(modulus);
    lemma_root_power_28();
    lemma_square_step(28, 0x17e6c570737897f385e789dcbc7a09bd4f82ab3e1182aecd80ec9d0beefa6c6dnat, 0x3f8f1cc60c6da729d26301123de65ed9c73bfb511bf223ac1d15074e708ac5aenat);
}

proof fn lemma_root_power_30()
    ensures
        root_power_is(30, 0x36bdcc7b0f28b5df31744fb72326829dff98203a45f8ebf0e047f48898cdb6dbnat),
{
    reveal(modulus);
    lemma_root_power_29();
    lemma_square_step(29, 0x3f8f1cc60c6da729d26301123de65ed9c73bfb511bf223ac1d15074e708ac5aenat, 0x36bdcc7b0f28b5df31744fb72326829dff98203a45f8ebf0e047f48898cdb6dbnat);
}

proof fn lemma_root_power_31()
    ensures
        root_power_is(31, (modulus() - 1) as nat),
{
    reveal(modulus);
    lemma_root_power_30();
    lemma_square_step(30, 0x36bdcc7b0f28b5df31744fb72326829dff98203a45f8ebf0e047f48898cdb6dbnat, (modulus() - 1) as nat);
}

/// The `2^31`-th power of the root of unity is minus one.
pub proof fn lemma_root_of_unity_order()
    ensures
        fpow(root_of_unity_value(), pow2(31)) == (modulus() - 1) as nat,
{
    reveal(root_power_is);
    lemma_root_power_31();
}

} // verus!
