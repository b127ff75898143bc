# ECS Cluster Discovery

A way for ECS tasks to discover their peers within their ECS cluster and VPC,
written in Verus. No interaction with AWS Cloud Map is needed, and services need
not register themselves.

- The user gives the VPC subnet, and may name services, weigh them, and limit
  the number of peers.
- The container metadata file tells which cluster the task runs in. It is read
  up to three times, until its status is `READY`.
- The running tasks of each service are looked at. Of each task the first
  elastic network interface whose address lies in the subnet is selected.
- Up to 100 peers of each service are collected, and a weighted selection of
  them is returned, by address or by DNS name. No more peers are returned than
  were asked for: where the weights allow more, those services that give the most
  give fewer. Where one peer of each service is asked for, each service that has
  peers gives one, even where there are more such services.

## Layout

- `src/` is the verified library. It decides which request is made next and
  which peers are returned, and makes no request itself.
  - `builder`: what is asked for
  - `discovery`: the requests to the cluster, step by step
  - `metadata`: the container metadata, and the attempts to read them
  - `tasks`: the peers among running tasks
  - `weights`: the weights of services, and how many peers they stand for
  - `quotas`: what services give by their quotas
  - `selection`: which of the peers found are returned
  - `subnet`, `ipv4`, `arn`, `text`, `ordered`, `error`: what these are made of
- `tests/` runs the library.
- `app/` talks to AWS, reads the metadata file and weighs services with `f32`.

Weights are generic over their number type: the library fixes which operations
are applied to which numbers, and the application brings floating point.

## Required AWS permissions

- `ecs:ListTasks`
- `ecs:ListServices`
- `ecs:DescribeTasks`
