# bank_manager

One owner holds the set of bank forks; clients reach it only by requests.

- `src/bank.rs`: a bank as the fork set sees it (slot, parent slot, frozen).
- `src/bank_forks.rs`: the fork set, kept in ascending order of slot, with
  its model (`ForksView`) and the laws of insertion, lookup and the
  frozen/active split.
- `src/manager.rs`: the requests, the replies and the owner's step
  function `BankManager::handle`, with the laws over runs of requests
  (`state_after`).
- `app/lib.rs`: the thread loop and the client, over crossbeam channels.
- `tests/`: scenarios run against the compiled library.
