use private_scoring::gpu::budget::{
    nvml_index_for_cuda_device, raise_peak, resolve_budget, BudgetResolverError,
};

fn chars(text: &str) -> Vec<char> {
    text.chars().collect()
}

#[test]
fn an_explicit_budget_is_taken_as_it_is() {
    let budget = resolve_budget(Some(12_345), 0, |_| panic!("free memory is not asked for"));
    assert!(matches!(budget, Ok(12_345)));
}

#[test]
fn a_budget_is_four_fifths_of_what_is_free() {
    let asked = std::cell::Cell::new(99);
    let budget = resolve_budget(None, 3, |index| {
        asked.set(index);
        Ok(1_000_003)
    });
    assert_eq!(asked.get(), 3);
    assert!(matches!(budget, Ok(800_002)));
}

#[test]
fn a_budget_that_cannot_be_found_out_is_an_error() {
    let budget = resolve_budget(None, 7, |index| Err(BudgetResolverError::NoDevice(index)));
    assert!(matches!(budget, Err(BudgetResolverError::NoDevice(7))));
    let budget = resolve_budget(None, 7, |_| {
        Err(BudgetResolverError::NvmlUnavailable(String::from("no driver")))
    });
    assert!(matches!(budget, Err(BudgetResolverError::NvmlUnavailable(m)) if m == "no driver"));
    let budget = resolve_budget(None, 7, |_| {
        Err(BudgetResolverError::MemoryInfo(String::from("lost")))
    });
    assert!(matches!(budget, Err(BudgetResolverError::MemoryInfo(m)) if m == "lost"));
}

#[test]
fn masks_name_the_physical_card() {
    assert_eq!(nvml_index_for_cuda_device(None, 2), 2);
    assert_eq!(nvml_index_for_cuda_device(Some(&chars("")), 2), 2);
    assert_eq!(nvml_index_for_cuda_device(Some(&chars(" \u{a0}\t")), 2), 2);
    assert_eq!(nvml_index_for_cuda_device(Some(&chars("1")), 0), 1);
    assert_eq!(nvml_index_for_cuda_device(Some(&chars(" 3 , +5,7 ")), 0), 3);
    assert_eq!(nvml_index_for_cuda_device(Some(&chars(" 3 ,\u{3000}+5,7 ")), 1), 5);
    assert_eq!(nvml_index_for_cuda_device(Some(&chars("3, 2")), 1), 2);
    assert_eq!(nvml_index_for_cuda_device(Some(&chars("3,5,7")), 3), 3);
    assert_eq!(nvml_index_for_cuda_device(Some(&chars("GPU-1,5")), 0), 0);
    assert_eq!(nvml_index_for_cuda_device(Some(&chars("4294967295,4294967296")), 0), 4294967295);
    assert_eq!(nvml_index_for_cuda_device(Some(&chars("4294967295,4294967296")), 1), 1);
}

#[test]
fn peaks_only_rise() {
    assert_eq!(raise_peak(10, 20), 20);
    assert_eq!(raise_peak(20, 10), 20);
}

#[test]
fn white_space_is_that_of_unicode() {
    // an entry with one other character before its number cannot be read
    for code in 0..0x11_0000u32 {
        let Some(c) = char::from_u32(code) else { continue };
        if c == ',' || c == '+' || c.is_ascii_digit() {
            continue;
        }
        let mask = [',', c, '6'];
        let expected = if c.is_whitespace() { 6 } else { 1 };
        assert_eq!(nvml_index_for_cuda_device(Some(&mask), 1), expected, "{code:x}");
    }
}
