use aether_core::types::Address;
use aether_core::vm::{integer_sqrt, SmartContractEngine};

#[test]
fn test_counter_lifecycle() {
    let creator = Address::new(1);
    let (info, initial_slots) = SmartContractEngine::deploy(creator, 0, 1, "MyCounter", "counter", &[10]);
    assert_eq!(initial_slots.get(&0), Some(&10));

    let mut storage = initial_slots;
    let res = SmartContractEngine::execute_call(creator, &info, "increment", &[5], |slot| *storage.get(&slot).unwrap_or(&0));
    assert_eq!(res.contract_slot_writes.get(&0), Some(&15));
    storage.extend(res.contract_slot_writes);

    let res2 = SmartContractEngine::execute_call(creator, &info, "decrement", &[3], |slot| *storage.get(&slot).unwrap_or(&0));
    assert_eq!(res2.contract_slot_writes.get(&0), Some(&12));
}

#[test]
fn test_token_lifecycle() {
    let creator = Address::new(10);
    let (info, initial_slots) = SmartContractEngine::deploy(creator, 0, 1, "GovToken", "token", &[1_000_000]);
    assert_eq!(initial_slots.get(&0), Some(&1_000_000));

    let mut storage = initial_slots;
    let res = SmartContractEngine::execute_call(creator, &info, "mint", &[20, 500], |slot| *storage.get(&slot).unwrap_or(&0));
    storage.extend(res.contract_slot_writes);
    assert_eq!(storage.get(&0), Some(&1_000_500));
    assert_eq!(storage.get(&(100 + 20)), Some(&500));
}

#[test]
fn test_custom_contract() {
    let creator = Address::new(99);
    let (info, initial_slots) = SmartContractEngine::deploy(creator, 0, 1, "CustomLogic", "custom", &[111, 222, 333]);
    assert_eq!(initial_slots.get(&0), Some(&111));
    assert_eq!(initial_slots.get(&1), Some(&222));
    assert_eq!(initial_slots.get(&2), Some(&333));

    let mut storage = initial_slots;
    let res = SmartContractEngine::execute_call(creator, &info, "set_slots", &[5, 9999], |slot| *storage.get(&slot).unwrap_or(&0));
    storage.extend(res.contract_slot_writes);
    assert_eq!(storage.get(&5), Some(&9999));
}

#[test]
fn test_uniswap_v2_amm() {
    let creator = Address::new(1);
    let (info, initial_slots) =
        SmartContractEngine::deploy(creator, 0, 1, "UniswapV2_ETH_USDC", "uniswap_v2", &[10_000, 20_000_000]);

    assert_eq!(initial_slots.get(&0), Some(&10_000));
    assert_eq!(initial_slots.get(&1), Some(&20_000_000));

    let mut storage = initial_slots;
    let trader = Address::new(2);
    let res = SmartContractEngine::execute_call(trader, &info, "swap_a_to_b", &[10, 19_000], |slot| *storage.get(&slot).unwrap_or(&0));
    assert_eq!(res.contract_slot_writes.get(&0), Some(&10_010));
    let new_res_b = *res.contract_slot_writes.get(&1).unwrap();
    assert!(new_res_b < 20_000_000);
    let usdc_received = 20_000_000 - new_res_b;
    assert!(usdc_received >= 19_000, "Should receive at least 19,000 USDC");
    storage.extend(res.contract_slot_writes);

    let lp_res = SmartContractEngine::execute_call(creator, &info, "add_liquidity", &[100, 200_000], |slot| *storage.get(&slot).unwrap_or(&0));
    storage.extend(lp_res.contract_slot_writes);
    assert_eq!(storage.get(&0), Some(&10_110));
}

#[test]
fn test_maker_cdp_lending() {
    let creator = Address::new(1);
    let (info, initial_slots) = SmartContractEngine::deploy(creator, 0, 1, "MakerDAO_CDP", "maker_cdp", &[2000, 150]);

    let mut storage = initial_slots;
    let borrower = Address::new(5);
    let borrower_slot = 100 + 5;
    let debt_slot = 200 + 5;

    let dep_res = SmartContractEngine::execute_call(borrower, &info, "deposit_collateral", &[10], |slot| *storage.get(&slot).unwrap_or(&0));
    storage.extend(dep_res.contract_slot_writes);
    assert_eq!(storage.get(&borrower_slot), Some(&10));

    let borrow_res = SmartContractEngine::execute_call(borrower, &info, "borrow", &[10_000], |slot| *storage.get(&slot).unwrap_or(&0));
    storage.extend(borrow_res.contract_slot_writes);
    assert_eq!(storage.get(&debt_slot), Some(&10_000));

    let repay_res = SmartContractEngine::execute_call(borrower, &info, "repay", &[4_000], |slot| *storage.get(&slot).unwrap_or(&0));
    storage.extend(repay_res.contract_slot_writes);
    assert_eq!(storage.get(&debt_slot), Some(&6_000));
}

#[test]
fn test_raydium_swap() {
    let creator = Address::new(1);
    let (info, initial_slots) = SmartContractEngine::deploy(creator, 0, 1, "Raydium_SOL_USDC", "raydium", &[50_000, 7_500_000]);

    let storage = initial_slots;
    let trader = Address::new(8);
    let res = SmartContractEngine::execute_call(trader, &info, "swap_base_to_quote", &[100, 14_000], |slot| *storage.get(&slot).unwrap_or(&0));
    assert_eq!(res.contract_slot_writes.get(&0), Some(&50_100));
    let new_quote = *res.contract_slot_writes.get(&1).unwrap();
    assert!(new_quote < 7_500_000);
    assert!(7_500_000 - new_quote >= 14_000);
}

#[test]
fn test_spl_token_standard() {
    let creator = Address::new(1);
    let (info, initial_slots) = SmartContractEngine::deploy(creator, 0, 1, "SPL_USDC", "spl_token", &[1_000_000, 6]);

    let mut storage = initial_slots;
    let user = Address::new(10);
    let user_slot = 100 + 10;
    let creator_slot = 100 + 1;

    let tx_res = SmartContractEngine::execute_call(creator, &info, "transfer_checked", &[10, 250_000], |slot| *storage.get(&slot).unwrap_or(&0));
    storage.extend(tx_res.contract_slot_writes);
    assert_eq!(storage.get(&creator_slot), Some(&750_000));
    assert_eq!(storage.get(&user_slot), Some(&250_000));

    let freeze_res = SmartContractEngine::execute_call(creator, &info, "freeze", &[], |slot| *storage.get(&slot).unwrap_or(&0));
    storage.extend(freeze_res.contract_slot_writes);
    assert_eq!(storage.get(&2), Some(&1));

    let fail_res = SmartContractEngine::execute_call(user, &info, "transfer_checked", &[20, 100], |slot| *storage.get(&slot).unwrap_or(&0));
    assert!(fail_res.contract_slot_writes.is_empty(), "Transfer while frozen should produce no writes");
}

#[test]
fn integer_sqrt_is_floor_root() {
    assert_eq!(integer_sqrt(0), 0);
    assert_eq!(integer_sqrt(1), 1);
    assert_eq!(integer_sqrt(15), 3);
    assert_eq!(integer_sqrt(16), 4);
    assert_eq!(integer_sqrt(u64::MAX), 4_294_967_295);
}

#[test]
fn counter_logs_and_gas() {
    let creator = Address::new(3);
    let (info, slots) = SmartContractEngine::deploy(creator, 2, 7, "Ctr", "Counter", &[4]);
    assert_eq!(info.template, "counter");
    assert_eq!(info.created_at_round, 7);
    let res = SmartContractEngine::execute_call(creator, &info, "INCREMENT", &[], |slot| *slots.get(&slot).unwrap_or(&0));
    assert_eq!(res.contract_slot_writes.get(&0), Some(&5));
    assert_eq!(res.logs, vec!["Counter incremented: 4 -> 5".to_string()]);
    assert_eq!(res.gas_used, 21000);
    let res2 = SmartContractEngine::execute_call(creator, &info, "set", &[9, 1], |slot| *slots.get(&slot).unwrap_or(&0));
    assert_eq!(res2.gas_used, 22000);
    let res3 = SmartContractEngine::execute_call(creator, &info, "bogus", &[], |slot| *slots.get(&slot).unwrap_or(&0));
    assert!(res3.contract_slot_writes.is_empty());
    assert_eq!(res3.logs, vec!["Unknown counter method: bogus".to_string()]);
}

#[test]
fn derived_contract_address_is_deterministic() {
    let a = SmartContractEngine::derive_contract_address(&Address::new(1), 0, "CounterTest");
    let b = SmartContractEngine::derive_contract_address(&Address::new(1), 0, "CounterTest");
    let c = SmartContractEngine::derive_contract_address(&Address::new(1), 1, "CounterTest");
    assert_eq!(a, b);
    assert_ne!(a, c);
    let (info, _) = SmartContractEngine::deploy(Address::new(1), 0, 0, "CounterTest", "counter", &[1]);
    assert_eq!(info.address, a);
}

#[test]
fn try_execute_call_refuses_an_overflowing_mint() {
    let creator = Address::new(10);
    let (info, _) = SmartContractEngine::deploy(creator, 0, 1, "GovToken", "token", &[1_000_000]);
    let full = |slot: u64| if slot == 0 { u64::MAX - 1 } else { 0 };
    assert!(SmartContractEngine::try_execute_call(creator, &info, "mint", &[20, 500], full).is_none());
    let ok = SmartContractEngine::try_execute_call(creator, &info, "mint", &[20, 500], |slot: u64| if slot == 0 { 7 } else { 0 }).unwrap();
    assert_eq!(ok.contract_slot_writes.get(&0), Some(&507));
    assert_eq!(ok.contract_slot_writes.get(&120), Some(&500));
}

#[test]
fn template_and_method_names_ignore_ascii_case() {
    let creator = Address::new(3);
    let (upper, upper_slots) = SmartContractEngine::deploy(creator, 0, 1, "C", "CoUnTeR", &[7]);
    let (lower, lower_slots) = SmartContractEngine::deploy(creator, 0, 1, "C", "counter", &[7]);
    assert_eq!(upper.template, "counter");
    assert_eq!(upper.template, lower.template);
    assert_eq!(upper.address, lower.address);
    assert_eq!(upper_slots, lower_slots);
    let storage = upper_slots;
    let res = SmartContractEngine::execute_call(creator, &upper, "INCREMENT", &[2], |slot| *storage.get(&slot).unwrap_or(&0));
    assert_eq!(res.contract_slot_writes.get(&0), Some(&9));
}
