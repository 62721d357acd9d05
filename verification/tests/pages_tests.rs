use htdb::Config;
use htdb::Pages;

#[test]
fn get_must_return_none_if_pages_empty() {
    let config = Config::default().set_max_page_size(3);
    let pages: Pages<usize, usize> = Pages::new(config);

    assert_eq!(None, pages.get(&10));
}

#[test]
fn get_must_return_none_if_value_not_exists() {
    let config = Config::default().set_max_page_size(3);
    let mut pages: Pages<usize, usize> = Pages::new(config);

    for index in (10..=20).step_by(2) {
        pages.insert(index, 0);
    }

    assert_eq!(None, pages.get(&9));
    assert_eq!(None, pages.get(&11));
    assert_eq!(None, pages.get(&17));
    assert_eq!(None, pages.get(&25));
}

#[test]
fn get_must_return_value_if_value_exists() {
    let config = Config::default().set_max_page_size(3);
    let mut pages: Pages<usize, usize> = Pages::new(config);

    for index in (10..=20).step_by(2) {
        pages.insert(index, 0);
    }

    assert_eq!(Some(&0), pages.get(&10));
    assert_eq!(Some(&0), pages.get(&12));
    assert_eq!(Some(&0), pages.get(&18));
    assert_eq!(Some(&0), pages.get(&20));
}

#[test]
fn insert_must_add_value_if_empty() {
    let config = Config::default().set_max_page_size(3);
    let mut pages: Pages<usize, usize> = Pages::new(config);

    assert_eq!(true, pages.insert(10, 10));
}

#[test]
fn insert_must_replace_value_if_empty() {
    let config = Config::default().set_max_page_size(3);
    let mut pages: Pages<usize, usize> = Pages::new(config);

    assert_eq!(true, pages.insert(10, 10));
    assert_eq!(false, pages.insert(10, 20));
    assert_eq!(Some(&20), pages.get(&10));
}

#[test]
fn contains_must_return_false_if_pages_empty() {
    let config = Config::default().set_max_page_size(3);
    let pages: Pages<usize, usize> = Pages::new(config);

    assert_eq!(false, pages.contains(&10));
}

#[test]
fn contains_must_return_false_if_value_not_exists() {
    let config = Config::default().set_max_page_size(3);
    let mut pages: Pages<usize, usize> = Pages::new(config);

    for index in (10..=20).step_by(2) {
        pages.insert(index, 0);
    }

    assert_eq!(false, pages.contains(&9));
    assert_eq!(false, pages.contains(&11));
    assert_eq!(false, pages.contains(&17));
    assert_eq!(false, pages.contains(&25));
}

#[test]
fn contains_must_return_true_if_value_exists() {
    let config = Config::default().set_max_page_size(3);
    let mut pages: Pages<usize, usize> = Pages::new(config);

    for index in (10..=20).step_by(2) {
        pages.insert(index, 0);
    }

    assert_eq!(true, pages.contains(&10));
    assert_eq!(true, pages.contains(&12));
    assert_eq!(true, pages.contains(&18));
    assert_eq!(true, pages.contains(&20));
}

#[test]
fn remove_must_return_false_if_pages_empty() {
    let config = Config::default().set_max_page_size(3);
    let mut pages: Pages<usize, usize> = Pages::new(config);

    assert_eq!(false, pages.remove(&10));
}

#[test]
fn remove_must_return_false_if_value_not_exists() {
    let config = Config::default().set_max_page_size(3);
    let mut pages: Pages<usize, usize> = Pages::new(config);

    for index in (10..=20).step_by(2) {
        pages.insert(index, 0);
    }

    assert_eq!(false, pages.remove(&9));
    assert_eq!(false, pages.remove(&11));
    assert_eq!(false, pages.remove(&17));
    assert_eq!(false, pages.remove(&25));
}

#[test]
fn remove_must_return_true_if_value_exists() {
    let config = Config::default().set_max_page_size(3);
    let mut pages: Pages<usize, usize> = Pages::new(config);

    for index in (10..=20).step_by(2) {
        pages.insert(index, 0);
    }

    assert_eq!(true, pages.remove(&10));
    assert_eq!(true, pages.remove(&12));
    assert_eq!(true, pages.remove(&18));
    assert_eq!(true, pages.remove(&20));
    assert_eq!(2, pages.size());
}

#[test]
fn size_must_return_number_of_elements() {
    let config = Config::default().set_max_page_size(3);
    let mut pages: Pages<usize, usize> = Pages::new(config);

    assert_eq!(0, pages.size());

    for index in 0..10 {
        pages.insert(index, index);
        assert_eq!(index + 1, pages.size());
    }

    for index in 0..10 {
        pages.insert(index, index);
        assert_eq!(10, pages.size());
    }
}
