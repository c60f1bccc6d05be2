use rofi_obsidian::display_name::get_divergence;

#[test]
fn test_get_divergence() {
    let v1 = vec![1, 2, 3, 4];
    let v2 = vec![1, 2, 4, 4];

    let (v1_d, v2_d) = get_divergence(v1, v2);

    assert_eq!(v1_d[..v1_d.len() - 1], v2_d[..v2_d.len() - 1]);
    assert_eq!(v1_d.len(), 3);
    assert_eq!(v2_d.len(), 3);
    assert_ne!(v1_d.last(), v2_d.last());
}

#[test]
fn test_get_divergence_identical() {
    let v1 = vec![1, 2, 3, 4];
    let v2 = vec![1, 2, 3, 4];

    let (v1_d, v2_d) = get_divergence(v1, v2);

    assert_eq!(v1_d, v2_d);
}

#[test]
fn test_first_elem_diverge() {
    let v1 = vec![2, 2, 3, 4];
    let v2 = vec![1, 2, 3, 4];

    let (v1_d, v2_d) = get_divergence(v1, v2);

    assert_eq!(v1_d.len(), 1);
    assert_eq!(v2_d.len(), 1);
    assert_ne!(v1_d[0], v2_d[0]);
    assert_ne!(v1_d.last(), v2_d.last());
}

#[test]
fn test_unequal_length() {
    let v1 = vec![1, 3];
    let v2 = vec![1, 2, 3, 4];

    let (v1_d, v2_d) = get_divergence(v1, v2);

    assert_eq!(v1_d.len(), 2);
    assert_eq!(v2_d.len(), 2);
    assert_eq!(v1_d[0], v2_d[0]);
    assert_ne!(v1_d.last(), v2_d.last());
}

#[test]
fn test_divergence_identical_keeps_shorter_length() {
    let v1 = vec![1, 2];
    let v2 = vec![1, 2, 9];

    let (v1_d, v2_d) = get_divergence(v1, v2);

    assert_eq!(v1_d, vec![1, 2]);
    assert_eq!(v2_d, vec![1, 2]);
}

#[test]
fn test_divergence_empty_side() {
    let v1: Vec<u64> = vec![];
    let v2 = vec![1, 2];

    let (v1_d, v2_d) = get_divergence(v1, v2);

    assert!(v1_d.is_empty());
    assert!(v2_d.is_empty());
}
