//! Tests of the slab allocator, driven through its counted handles.

use rustfs::SlabAllocator;

#[derive(PartialEq, Eq, Debug, Clone)]
struct MyThing {
    field1: Option<Box<i64>>,
    done: bool,
}

#[test]
fn lib_test_one_mut_alloc() {
    let mut slab_allocator = SlabAllocator::new(20);
    let object = slab_allocator.allocate(239);
    assert_eq!(*object.borrow(&slab_allocator), 239);
    let object2 = slab_allocator.allocate(239);
    assert_eq!(*object.borrow(&slab_allocator), *object2.borrow(&slab_allocator));
}

#[test]
fn lib_test_one_struct_alloc() {
    let mut slab_allocator = SlabAllocator::new(20);
    let struct_obj = MyThing { field1: Some(Box::new(20)), done: false };
    let object = slab_allocator.allocate(struct_obj);

    assert_eq!(object.borrow(&slab_allocator).field1, Some(Box::new(20)));
    object.borrow_mut(&mut slab_allocator).done = true;

    // Now with a boxed type
    let mut slab_allocator = SlabAllocator::new(20);
    let struct_obj = Box::new(MyThing { field1: Some(Box::new(40)), done: false });
    let object = slab_allocator.allocate(struct_obj);

    assert_eq!(object.borrow(&slab_allocator).field1, Some(Box::new(40)));
    object.borrow_mut(&mut slab_allocator).done = true;
}

#[test]
fn lib_test_two_allocs_with_boxes() {
    let mut slab_allocator = SlabAllocator::new(20);
    let object = slab_allocator.allocate(Box::new(239));
    let object2 = slab_allocator.allocate(Box::new(23089));
    let object3 = slab_allocator.dup(&object);

    assert!(**object.borrow(&slab_allocator) == 239);
    assert_eq!(*object2.borrow(&slab_allocator), Box::new(23089));
    assert!(*object2.borrow(&slab_allocator) != *object.borrow(&slab_allocator));
    assert!(*object2.borrow(&slab_allocator) != *object.borrow(&slab_allocator));
    assert_eq!(*object3.borrow(&slab_allocator), *object.borrow(&slab_allocator));
}

#[test]
fn lib_test_mut_alloc() {
    let mut slab_allocator = SlabAllocator::new(20);
    let object = slab_allocator.allocate(239);
    assert_eq!(*object.borrow(&slab_allocator), 239);

    *object.borrow_mut(&mut slab_allocator) = 500;
    assert_eq!(*object.borrow(&slab_allocator), 500);

    *object.borrow_mut(&mut slab_allocator) = 50;
    assert_eq!(*object.borrow(&slab_allocator), 50);
}

#[test]
fn lib_test_mut_alloc_clone() {
    let mut slab_allocator = SlabAllocator::new(20);
    let object = slab_allocator.allocate(239);
    let object2 = slab_allocator.dup(&object);
    let object3 = slab_allocator.allocate(77);

    assert_eq!(*object.borrow(&slab_allocator), 239);
    assert_eq!(*object.borrow(&slab_allocator), *object2.borrow(&slab_allocator));
    assert_eq!(*object3.borrow(&slab_allocator), 77);

    *object.borrow_mut(&mut slab_allocator) = 349;
    assert_eq!(*object.borrow(&slab_allocator), 349);
    assert_eq!(*object.borrow(&slab_allocator), *object2.borrow(&slab_allocator));
    assert_eq!(*object3.borrow(&slab_allocator), 77);
}

#[test]
fn lib_test_one_alloc_boxed() {
    let mut slab_allocator = Box::new(SlabAllocator::new(20));
    let object = slab_allocator.allocate(239);
    assert_eq!(*object.borrow(&slab_allocator), 239);
}

#[test]
fn lib_test_many_alloc() {
    let mut slab_allocator = SlabAllocator::new(20);

    // Allocating and verifying 20 items and putting into vector.
    let mut vec = Vec::new();
    for i in 0..20 {
        let obj = slab_allocator.allocate(i);
        assert_eq!(*obj.borrow(&slab_allocator), i);
        vec.push(obj);
    }

    // Making sure they're all still there and different.
    let mut i = 0;
    for obj in vec.iter() {
        assert_eq!(*obj.borrow(&slab_allocator), i);
        i += 1;
    }
}

#[test]
fn lib_test_alloc_return() {
    let mut slab_allocator = Box::new(SlabAllocator::new(20));

    // Each handle is freed again after each loop iteration.
    for i in 0..50 {
        // Making sure nothing's in there
        let (alloc_count, _) = slab_allocator.stats();
        assert_eq!(alloc_count, 0);

        let object = slab_allocator.allocate(i);
        assert_eq!(*object.borrow(&slab_allocator), i);
        slab_allocator.free(object);
    }

    // Just in case some weird business is happening
    for i in -239..-180 {
        let object = slab_allocator.allocate(i);
        assert_eq!(*object.borrow(&slab_allocator), i);
        slab_allocator.free(object);
    }

    // Should still be empty
    let (alloc_count, _) = slab_allocator.stats();
    assert_eq!(alloc_count, 0);
}

#[test]
fn lib_test_over_alloc() {
    // This test should pass when the allocator can grow.
    let mut slab_allocator = SlabAllocator::new(20);

    // Allocating more than the capacity, keeping every handle live.
    let mut vec = Vec::new();
    for i in 0..100 {
        let obj = slab_allocator.allocate(i);
        assert_eq!(*obj.borrow(&slab_allocator), i);
        vec.push(obj);
    }

    // Make sure the allocator performed as expected
    let (allocated, capacity) = slab_allocator.stats();
    assert_eq!(allocated, 100);
    assert_eq!(capacity, 160); // 20 -> 40 -> 80 -> 160

    // Get rid of all the references to the objects
    for obj in vec {
        slab_allocator.free(obj);
    }

    // Make sure they were deallocated
    let (allocated, capacity) = slab_allocator.stats();
    assert_eq!(allocated, 0);
    assert_eq!(capacity, 160); // 20 -> 40 -> 80 -> 160
}

#[test]
fn lib_test_copy_return_alloc() {
    let mut slab_allocator = SlabAllocator::new(20);

    // Only the value is kept; the handle itself goes back each time.
    let mut vec = Vec::new();
    for i in 0..25 {
        let (alloc_count, _) = slab_allocator.stats();
        assert_eq!(alloc_count, 0);

        let obj = slab_allocator.allocate(i);
        assert_eq!(*obj.borrow(&slab_allocator), i);
        vec.push(*obj.borrow(&slab_allocator));
        slab_allocator.free(obj);
    }

    let (alloc_count, _) = slab_allocator.stats();
    assert_eq!(alloc_count, 0);
}

#[test]
fn slab_test_one_mut_alloc() {
    let mut slab_allocator = SlabAllocator::new(20);
    let object = slab_allocator.allocate(239);
    assert_eq!(*object.borrow(&slab_allocator), 239);
    let object2 = slab_allocator.allocate(239);
    assert_eq!(*object.borrow(&slab_allocator), *object2.borrow(&slab_allocator));
}

#[test]
fn slab_test_one_struct_alloc() {
    let mut slab_allocator = SlabAllocator::new(20);
    let struct_obj = MyThing { field1: Some(Box::new(20)), done: false };
    let object = slab_allocator.allocate(struct_obj);

    assert_eq!(object.borrow(&slab_allocator).field1, Some(Box::new(20)));
    object.borrow_mut(&mut slab_allocator).done = true;

    // Now with a boxed type
    let mut slab_allocator = SlabAllocator::new(20);
    let struct_obj = Box::new(MyThing { field1: Some(Box::new(40)), done: false });
    let object = slab_allocator.allocate(struct_obj);

    assert_eq!(object.borrow(&slab_allocator).field1, Some(Box::new(40)));
    object.borrow_mut(&mut slab_allocator).done = true;
}

#[test]
fn slab_test_two_allocs_with_boxes() {
    let mut slab_allocator = SlabAllocator::new(20);
    let object = slab_allocator.allocate(Box::new(239));
    let object2 = slab_allocator.allocate(Box::new(23089));
    let object3 = slab_allocator.dup(&object);

    assert!(**object.borrow(&slab_allocator) == 239);
    assert_eq!(*object2.borrow(&slab_allocator), Box::new(23089));
    assert!(*object2.borrow(&slab_allocator) != *object.borrow(&slab_allocator));
    assert!(*object2.borrow(&slab_allocator) != *object.borrow(&slab_allocator));
    assert_eq!(*object3.borrow(&slab_allocator), *object.borrow(&slab_allocator));
}

#[test]
fn slab_test_mut_alloc() {
    let mut slab_allocator = SlabAllocator::new(20);
    let object = slab_allocator.allocate(239);
    assert_eq!(*object.borrow(&slab_allocator), 239);

    *object.borrow_mut(&mut slab_allocator) = 500;
    assert_eq!(*object.borrow(&slab_allocator), 500);

    *object.borrow_mut(&mut slab_allocator) = 50;
    assert_eq!(*object.borrow(&slab_allocator), 50);
}

#[test]
fn slab_test_mut_alloc_clone() {
    let mut slab_allocator = SlabAllocator::new(20);
    let object = slab_allocator.allocate(239);
    let object2 = slab_allocator.dup(&object);
    let object3 = slab_allocator.allocate(77);

    assert_eq!(*object.borrow(&slab_allocator), 239);
    assert_eq!(*object.borrow(&slab_allocator), *object2.borrow(&slab_allocator));
    assert_eq!(*object3.borrow(&slab_allocator), 77);

    *object.borrow_mut(&mut slab_allocator) = 349;
    assert_eq!(*object.borrow(&slab_allocator), 349);
    assert_eq!(*object.borrow(&slab_allocator), *object2.borrow(&slab_allocator));
    assert_eq!(*object3.borrow(&slab_allocator), 77);
}

#[test]
fn slab_test_one_alloc_boxed() {
    let mut slab_allocator = Box::new(SlabAllocator::new(20));
    let object = slab_allocator.allocate(239);
    assert_eq!(*object.borrow(&slab_allocator), 239);
}

#[test]
fn slab_test_many_alloc() {
    let mut slab_allocator = SlabAllocator::new(20);

    // Allocating and verifying 20 items and putting into vector.
    let mut vec = Vec::new();
    for i in 0..20 {
        let obj = slab_allocator.allocate(i);
        assert_eq!(*obj.borrow(&slab_allocator), i);
        vec.push(obj);
    }

    // Making sure they're all still there and different.
    let mut i = 0;
    for obj in vec.iter() {
        assert_eq!(*obj.borrow(&slab_allocator), i);
        i += 1;
    }
}

#[test]
fn slab_test_alloc_return() {
    let mut slab_allocator = Box::new(SlabAllocator::new(20));

    // Each handle is freed again after each loop iteration.
    for i in 0..50 {
        let object = slab_allocator.allocate(i);
        assert_eq!(*object.borrow(&slab_allocator), i);
        slab_allocator.free(object);
    }

    // Just in case some weird business is happening
    for i in -239..-180 {
        let object = slab_allocator.allocate(i);
        assert_eq!(*object.borrow(&slab_allocator), i);
        slab_allocator.free(object);
    }
}

#[test]
fn slab_test_copy_return_alloc() {
    let mut slab_allocator = SlabAllocator::new(20);

    // Only the value is kept; the handle itself goes back each time.
    let mut vec = Vec::new();
    for i in 0..25 {
        let obj = slab_allocator.allocate(i);
        assert_eq!(*obj.borrow(&slab_allocator), i);
        vec.push(*obj.borrow(&slab_allocator));
        slab_allocator.free(obj);
    }
}

#[test]
fn test_usage_external_allocator() {
    // a holder that keeps one slot of a shared allocator
    struct MyHolder {
        item: rustfs::SlabBox<i64>,
    }

    let mut allocator = SlabAllocator::new(10);
    let mut thing = MyHolder { item: allocator.allocate(120) };
    let thing2 = MyHolder { item: allocator.allocate(130) };

    assert_eq!(*thing.item.borrow(&allocator), 120);
    assert_eq!(*thing2.item.borrow(&allocator), 130);

    let (alloc_count, _) = allocator.stats();
    assert_eq!(alloc_count, 2);

    // replacing the held slot frees the old one
    let old = thing.item;
    thing.item = allocator.allocate(434);
    allocator.free(old);
    assert_eq!(*thing.item.borrow(&allocator), 434);
    assert_eq!(*thing2.item.borrow(&allocator), 130);

    let (alloc_count, _) = allocator.stats();
    assert_eq!(alloc_count, 2);
}

#[test]
fn test_usage_internal_allocator() {
    let mut allocator = SlabAllocator::new(10);
    let mut item: Option<rustfs::SlabBox<i64>> = None;

    let mut set = |allocator: &mut SlabAllocator<i64>,
                   item: &mut Option<rustfs::SlabBox<i64>>,
                   num: i64| {
        let fresh = allocator.allocate(num);
        if let Some(old) = item.take() {
            allocator.free(old);
        }
        *item = Some(fresh);
    };

    set(&mut allocator, &mut item, 127);
    assert!(*item.as_ref().unwrap().borrow(&allocator) == 127);

    set(&mut allocator, &mut item, 50);
    assert!(*item.as_ref().unwrap().borrow(&allocator) == 50);

    let (alloc_count, _) = allocator.stats();
    assert_eq!(alloc_count, 1);

    // a duplicate of the held slot survives the next replacement
    let oldthing = allocator.dup(item.as_ref().unwrap());
    set(&mut allocator, &mut item, 120);
    assert_eq!(*oldthing.borrow(&allocator), 50);
    assert_eq!(*item.as_ref().unwrap().borrow(&allocator), 120);

    let (alloc_count, _) = allocator.stats();
    assert_eq!(alloc_count, 2);
}

#[test]
fn slab_free_shared_slot_stays_live() {
    let mut slab_allocator = SlabAllocator::new(4);
    let a = slab_allocator.allocate(7);
    let b = slab_allocator.dup(&a);
    slab_allocator.free(a);

    // the duplicate still reaches the value
    assert_eq!(*b.borrow(&slab_allocator), 7);
    let (alloc_count, _) = slab_allocator.stats();
    assert_eq!(alloc_count, 1);

    slab_allocator.free(b);
    let (alloc_count, _) = slab_allocator.stats();
    assert_eq!(alloc_count, 0);
}
