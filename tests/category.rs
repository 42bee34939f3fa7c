use nibi::category::{
    exists_id_in_category_list, get_index_map_from_categories,
    insert_descendant_to_category_list, search_id_in_category_list, Category,
};

fn cat(id: usize, parent: Option<usize>) -> Category {
    Category::new_with_parent(id, format!("c{id}"), format!("C{id}"), String::new(), parent)
}

fn tree() -> Vec<Category> {
    let mut root = Category::new(1, "c1".to_string(), "C1".to_string(), String::new());
    root.append_child(cat(2, Some(1)));
    let mut other = Category::new(5, "c5".to_string(), "C5".to_string(), String::new());
    assert!(other.insert_descendant_if_match(cat(6, Some(5))).is_none());
    vec![root, other]
}

#[test]
fn descendants_in_preorder() {
    let list = tree();
    let ids: Vec<usize> = list[0].get_descendants().iter().map(|c| c.id).collect();
    assert_eq!(ids, vec![1, 2]);
    let map = get_index_map_from_categories(&list);
    assert_eq!(map.keys().copied().collect::<Vec<usize>>(), vec![1, 2, 5, 6]);
    assert_eq!(map[&6].name, "C6");
}

#[test]
fn insert_under_matching_parent() {
    let mut list = tree();
    assert!(insert_descendant_to_category_list(&mut list, cat(7, Some(2))).is_none());
    assert_eq!(list[0].children[0].children[0].id, 7);
    let back = insert_descendant_to_category_list(&mut list, cat(8, Some(99)));
    assert_eq!(back.map(|c| c.id), Some(8));
    let orphan = list[1].insert_descendant_if_match(cat(9, None));
    assert_eq!(orphan.map(|c| c.id), Some(9));
}

#[test]
fn lookups_by_id() {
    let list = tree();
    assert!(exists_id_in_category_list(&list, 6));
    assert!(!exists_id_in_category_list(&list, 3));
    assert_eq!(search_id_in_category_list(&list, 2).map(|c| c.name.as_str()), Some("C2"));
    assert!(list[1].search_id(1).is_none());
    assert!(list[0].exists_id(2));
}
