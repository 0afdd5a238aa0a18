use infinity_sampler::InitializedItem;
use infinity_sampler::Item;
use infinity_sampler::SamplingRate;

#[test]
fn rate_accepts_every_divisor_th_step() {
    let mut sampler = SamplingRate::new(2);
    assert_eq!(sampler.step(), false);
    assert_eq!(sampler.step(), true);
    assert_eq!(sampler.step(), false);
    assert_eq!(sampler.step(), true);

    sampler.div(2);
    assert_eq!(sampler.divisor(), 4);
    assert_eq!(sampler.step(), false);
    assert_eq!(sampler.step(), false);
    assert_eq!(sampler.step(), false);
    assert_eq!(sampler.step(), true);
    assert_eq!(sampler.step(), false);
    assert_eq!(sampler.step(), false);
    assert_eq!(sampler.step(), false);
    assert_eq!(sampler.step(), true);
}

#[test]
fn rate_of_one_accepts_everything() {
    let mut sampler = SamplingRate::new(1);
    for _ in 0..10 {
        assert_eq!(sampler.step(), true);
    }
}

#[test]
fn item_take_and_write() {
    let mut item: Item<u32> = Item::empty();
    assert_eq!(item.take(), None);
    assert_eq!(item.write(3, 30), None);
    assert_eq!(item.write(5, 50), Some((3, 30)));
    assert_eq!(item.take(), Some(50));
    assert_eq!(item.take(), None);
}

#[test]
fn item_peek_and_initialized() {
    let mut item: Item<u32> = Item::empty();
    assert!(item.peek().is_none());
    item.write(7, 70);
    assert_eq!(item.peek(), Some(&70));

    let init = item.into_initialized().unwrap();
    assert_eq!(init.insertion_index(), 7);
    assert_eq!(*init.value(), 70);
    assert_eq!(init.into_value(), 70);

    let empty: Item<u32> = Item::empty();
    assert!(empty.into_initialized().is_none());
}

#[test]
fn initialized_item_from_parts() {
    let init = InitializedItem::new(11, "hello".to_string());
    assert_eq!(init.insertion_index(), 11);
    assert_eq!(init.value(), "hello");
    assert_eq!(init.into_value(), "hello");
}

#[test]
fn item_clone_keeps_entry() {
    let mut item: Item<u32> = Item::empty();
    item.write(2, 20);
    let mut copy = item.clone();
    assert_eq!(copy.take(), Some(20));
    assert_eq!(item.take(), Some(20));
}
