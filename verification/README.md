# salvo_routing

Request routing whose behaviour is stated in contracts and proved by Verus.

- `src/` is the library: routing trees, the filters that decide which requests enter a
  node, detection of the route that takes a request, the compiled form of a tree with an
  index over wide nodes, and the view of a tree that an OpenAPI document needs. Every
  function carries a contract; the modules whose names end in `laws` state what holds of
  the library as a whole.
- `app/` runs detections in asynchronous applications. A filter whose answer comes from
  outside pauses the detection; the application finds the answer and resumes it.
- `tests/` runs the library on concrete values.
